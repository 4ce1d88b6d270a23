use jetbrains_search_provider::items::LaunchItem;
use jetbrains_search_provider::matching::{find_matching_items, match_score_folded, ScoreMatchable};
use jetbrains_search_provider::strutil::chars_of;

fn item(name: &str, uri: &str) -> LaunchItem {
    LaunchItem { name: name.to_string(), uri: uri.to_string() }
}

#[test]
fn exact_match_scores_hundred() {
    let i = item("mdcat", "/home/x/mdcat");
    let terms = vec!["mdcat".to_string()];
    assert_eq!(i.match_score(&terms), 100);
}

#[test]
fn case_folding_reaches_the_score() {
    // Would fail if case folding handed its argument back unchanged: the
    // upper-case name could never equal the lower-case term.
    let i = item("FOO", "/x/unrelated");
    let terms = vec!["foo".to_string()];
    assert_eq!(i.match_score(&terms), 100);
}

#[test]
fn prefix_match_scores_seventy_five() {
    let i = item("foo bar", "/x/unrelated");
    let terms = vec!["foo".to_string()];
    assert_eq!(i.match_score(&terms), 75);
}

#[test]
fn word_boundary_match_scores_fifty() {
    let i = item("the foo bar", "/x/unrelated");
    let terms = vec!["foo".to_string()];
    assert_eq!(i.match_score(&terms), 50);
}

#[test]
fn plain_substring_scores_twenty_five() {
    let i = item("abfooc", "/x/unrelated");
    let terms = vec!["foo".to_string()];
    assert_eq!(i.match_score(&terms), 25);
}

#[test]
fn any_missed_term_excludes_the_item() {
    let i = item("foo bar", "/home/x/foo");
    let terms = vec!["foo".to_string(), "zzz".to_string()];
    assert_eq!(i.match_score(&terms), 0);
}

#[test]
fn score_is_the_average_grade() {
    // "foo" is a prefix of the name (75); "bar" sits at a word boundary (50).
    let i = item("foo bar", "/x/unrelated");
    let terms = vec!["foo".to_string(), "bar".to_string()];
    assert_eq!(i.match_score(&terms), 62);
}

#[test]
fn best_field_wins_per_term() {
    // The name only contains the term; the locator starts with it.
    let i = item("a foo", "foo/x");
    let terms = vec!["foo".to_string()];
    assert_eq!(i.match_score(&terms), 75);
}

#[test]
fn empty_terms_score_zero() {
    let i = item("foo", "/home/x/foo");
    let terms: Vec<String> = Vec::new();
    assert_eq!(i.match_score(&terms), 0);
}

#[test]
fn empty_fields_score_a_defined_value() {
    let i = item("", "");
    assert_eq!(i.match_score(&vec!["a".to_string()]), 0);
    // An empty term is a prefix of every field and equal to an empty one.
    assert_eq!(i.match_score(&vec!["".to_string()]), 100);
    assert_eq!(item("x", "/y").match_score(&vec!["".to_string()]), 75);
}

#[test]
fn folded_scoring_matches_engine() {
    let name = chars_of("foo bar");
    let uri = chars_of("/x/unrelated");
    let terms = vec![chars_of("foo")];
    assert_eq!(match_score_folded(&name, &uri, &terms), 75);
}

#[test]
fn ranking_is_by_score_descending() {
    let candidates = vec![
        ("sub".to_string(), item("axb", "/u")),
        ("exact".to_string(), item("x", "/u")),
        ("prefix".to_string(), item("xb", "/u")),
        ("boundary".to_string(), item("b x", "/u")),
    ];
    let terms = vec!["x".to_string()];
    let ids = find_matching_items(&candidates, &terms);
    assert_eq!(ids, vec!["exact", "prefix", "boundary", "sub"]);
}

#[test]
fn equal_scores_keep_input_order() {
    let candidates = vec![
        ("first".to_string(), item("xa", "/u")),
        ("second".to_string(), item("xb", "/u")),
        ("third".to_string(), item("xc", "/u")),
    ];
    let terms = vec!["x".to_string()];
    let ids = find_matching_items(&candidates, &terms);
    assert_eq!(ids, vec!["first", "second", "third"]);
}

#[test]
fn zero_scored_candidates_are_excluded() {
    let candidates = vec![
        ("miss".to_string(), item("nothing", "/u")),
        ("hit".to_string(), item("foo", "/u")),
    ];
    let terms = vec!["foo".to_string()];
    let ids = find_matching_items(&candidates, &terms);
    assert_eq!(ids, vec!["hit"]);
    let all_hit = find_matching_items(&candidates, &vec!["o".to_string()]);
    assert!(all_hit.contains(&"miss".to_string()));
}
