use poki_launcher::db::{AppDBError, AppsDB};
use poki_launcher::entry::{App, SCORE_SCALE};

fn app(name: &str) -> App {
    App::new(name.to_owned(), "icon".to_owned(), "/bin/test".to_owned())
}

#[test]
fn merge_new_entries_identical() {
    let apps = vec![
        App::new(
            "Test1".to_owned(),
            "icon".to_owned(),
            "/bin/test".to_owned(),
        ),
        App::new(
            "Test2".to_owned(),
            "icon".to_owned(),
            "/bin/test".to_owned(),
        ),
    ];
    let mut apps_db = AppsDB::new(apps.clone());
    apps_db.merge_new_entries(apps.clone());
    assert_eq!(apps, apps_db.apps);
}

#[test]
fn merge_new_entries_remove() {
    let mut apps = vec![
        App::new(
            "Test1".to_owned(),
            "icon".to_owned(),
            "/bin/test".to_owned(),
        ),
        App::new(
            "Test2".to_owned(),
            "icon".to_owned(),
            "/bin/test".to_owned(),
        ),
    ];
    let mut apps_db = AppsDB::new(apps.clone());
    apps.remove(0);
    apps_db.merge_new_entries(apps.clone());
    assert_eq!(apps, apps_db.apps);
}

#[test]
fn merge_new_entries_add() {
    let mut apps = vec![App::new(
        "Test1".to_owned(),
        "icon".to_owned(),
        "/bin/test".to_owned(),
    )];
    let mut apps_db = AppsDB::new(apps.clone());
    apps.push(App::new(
        "Test2".to_owned(),
        "icon".to_owned(),
        "/bin/test".to_owned(),
    ));
    apps_db.merge_new_entries(apps.clone());
    assert_eq!(apps, apps_db.apps);
}

#[test]
fn new_assigns_fresh_ids_and_drops_duplicates() {
    let db = AppsDB::new(vec![app("A"), app("B"), app("A")]);
    assert_eq!(db.apps.len(), 2);
    assert_eq!(db.apps[0].uuid, 1);
    assert_eq!(db.apps[1].uuid, 2);
    assert_eq!(db.next_id(), 3);
    assert_eq!(db.half_life(), 259200);
}

#[test]
fn zero_half_life_is_refused() {
    assert!(matches!(AppsDB::with_half_life(10, 0), Err(AppDBError::InvalidHalfLife)));
    let db = AppsDB::with_half_life(10, 5).unwrap();
    assert_eq!(db.reference_time(), 10);
    assert_eq!(db.half_life(), 5);
    assert!(db.apps.is_empty());
}

#[test]
fn merge_keeps_scores_of_identical_set() {
    let mut db = AppsDB::with_half_life(0, 100).unwrap();
    db.merge_new_entries(vec![app("A"), app("B")]);
    db.apps[0].score = 5000;
    db.apps[1].score = 7;
    db.merge_new_entries(vec![app("B"), app("A")]);
    assert_eq!(db.apps.len(), 2);
    assert_eq!(db.apps[0].name, "A");
    assert_eq!(db.apps[0].score, 5000);
    assert_eq!(db.apps[0].uuid, 1);
    assert_eq!(db.apps[1].score, 7);
    assert_eq!(db.apps[1].uuid, 2);
}

#[test]
fn merge_removes_absent_and_adds_new_at_zero() {
    let mut db = AppsDB::with_half_life(0, 100).unwrap();
    db.merge_new_entries(vec![app("A"), app("B")]);
    db.apps[0].score = 11;
    db.apps[1].score = 22;
    let mut fresh = app("C");
    fresh.score = 99;
    db.merge_new_entries(vec![app("B"), fresh, app("C")]);
    assert_eq!(db.apps.len(), 2);
    assert_eq!(db.apps[0].name, "B");
    assert_eq!(db.apps[0].score, 22);
    assert_eq!(db.apps[0].uuid, 2);
    assert_eq!(db.apps[1].name, "C");
    assert_eq!(db.apps[1].score, 0);
    assert_eq!(db.apps[1].uuid, 3);
}

#[test]
fn same_content_ignores_id_and_score() {
    let mut a = app("A");
    a.uuid = 4;
    a.score = 9;
    assert_eq!(a, app("A"));
    assert_ne!(app("A"), App::new("A".to_owned(), "other".to_owned(), "/bin/test".to_owned()));
}

#[test]
fn record_launch_reinforces_by_one_launch() {
    let mut db = AppsDB::with_half_life(1000, 100).unwrap();
    db.merge_new_entries(vec![app("A"), app("B")]);
    // at the reference time the factor is one: the score gains one launch
    assert!(db.update_score_at(2, SCORE_SCALE, 1000).is_ok());
    assert_eq!(db.apps[1].score, SCORE_SCALE);
    assert_eq!(db.apps[0].score, 0);
    // one half-life later the stored gain doubles
    assert!(db.update_score_at(2, SCORE_SCALE, 1100).is_ok());
    // worth 500 now, plus 1000, stored times two
    assert_eq!(db.apps[1].score, 3000);
}

#[test]
fn record_launch_on_unknown_id_is_reported() {
    let mut db = AppsDB::with_half_life(0, 100).unwrap();
    db.merge_new_entries(vec![app("A")]);
    let r = db.update_score_at(42, SCORE_SCALE, 10);
    assert!(matches!(r, Err(AppDBError::EntryNotFound { uuid: 42 })));
    assert_eq!(db.apps[0].score, 0);
    let stranger = app("Z");
    assert!(matches!(db.update(&stranger), Err(AppDBError::EntryNotFound { uuid: 0 })));
}

#[test]
fn update_counts_a_launch_now() {
    let mut db = AppsDB::new(vec![app("A")]);
    let target = db.apps[0].clone();
    assert!(db.update(&target).is_ok());
    assert!(db.apps[0].score >= SCORE_SCALE);
}

#[test]
fn sort_orders_by_ascending_score() {
    let mut db = AppsDB::with_half_life(0, 100).unwrap();
    db.merge_new_entries(vec![app("A"), app("B"), app("C"), app("D")]);
    db.apps[0].score = 30;
    db.apps[1].score = 10;
    db.apps[2].score = 20;
    db.apps[3].score = 10;
    db.sort();
    let order: Vec<&str> = db.apps.iter().map(|a| a.name.as_str()).collect();
    assert_eq!(order, vec!["B", "D", "C", "A"]);
}

#[test]
fn failed_launch_leaves_catalog_unchanged() {
    let mut db = AppsDB::with_half_life(0, 100).unwrap();
    db.merge_new_entries(vec![app("A")]);
    let target = db.apps[0].clone();
    match db.finish_launch(&target, false, 50) {
        Err(AppDBError::LaunchFailed { command }) => assert_eq!(command, "/bin/test"),
        other => panic!("unexpected {:?}", other),
    }
    assert_eq!(db.apps[0].score, 0);
    assert!(db.finish_launch(&target, true, 0).is_ok());
    assert_eq!(db.apps[0].score, SCORE_SCALE);
}
