use poki_launcher::db::AppsDB;
use poki_launcher::entry::{App, SCORE_SCALE};
use poki_launcher::rank::rank_by_scores;

fn app(name: &str) -> App {
    App::new(name.to_owned(), "icon".to_owned(), "/bin/".to_owned() + name)
}

fn names(v: &[App]) -> Vec<String> {
    v.iter().map(|a| a.name.clone()).collect()
}

#[test]
fn ranking_excludes_zero_and_unmatched() {
    let apps = vec![app("Firefox"), app("Files"), app("Terminal")];
    let r = rank_by_scores(&apps, &vec![Some(40), Some(0), None], None);
    assert_eq!(names(&r), vec!["Firefox"]);
}

#[test]
fn ranking_query_fir_keeps_firefox_only() {
    let db = AppsDB::new(vec![app("Firefox"), app("Files"), app("Terminal")]);
    let r = db.get_ranked_list("fir", None);
    assert_eq!(names(&r), vec!["Firefox"]);
}

#[test]
fn empty_query_ranks_nothing() {
    let db = AppsDB::new(vec![app("Firefox"), app("Files")]);
    assert!(db.get_ranked_list("", None).is_empty());
}

#[test]
fn higher_relevance_ranks_first() {
    let apps = vec![app("Three"), app("Seven")];
    let r = rank_by_scores(&apps, &vec![Some(3), Some(7)], None);
    assert_eq!(names(&r), vec!["Seven", "Three"]);
}

#[test]
fn usage_and_relevance_are_summed() {
    let mut a = app("A");
    a.score = 100 * SCORE_SCALE;
    let b = app("B");
    let r = rank_by_scores(&vec![b, a], &vec![Some(50), Some(1)], None);
    assert_eq!(names(&r), vec!["A", "B"]);
}

#[test]
fn ties_keep_catalog_order_and_limit_cuts_after_sorting() {
    let apps = vec![app("P"), app("Q"), app("R"), app("S")];
    let scores = vec![Some(2), Some(5), Some(2), Some(5)];
    let r = rank_by_scores(&apps, &scores, None);
    assert_eq!(names(&r), vec!["Q", "S", "P", "R"]);
    let r = rank_by_scores(&apps, &scores, Some(3));
    assert_eq!(names(&r), vec!["Q", "S", "P"]);
    let r = rank_by_scores(&apps, &scores, Some(0));
    assert!(r.is_empty());
}

#[test]
fn ranked_entries_are_unchanged_copies() {
    let mut a = app("A");
    a.score = 12;
    a.uuid = 3;
    let r = rank_by_scores(&vec![a], &vec![Some(9)], None);
    assert_eq!(r[0].score, 12);
    assert_eq!(r[0].uuid, 3);
    assert_eq!(r[0].command, "/bin/A");
}
