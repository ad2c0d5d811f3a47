use eijirs::db::{Db, Error};
use eijirs::norm::normalize;
use eijirs::parse::{parse_line, split_entry};
use eijirs::session::{
    App, SessionAction, SessionEvent, cursor_column, get_list_height, input_box_inner_width,
    result_row,
};

fn lines(v: &[&str]) -> Vec<String> {
    v.iter().map(|s| s.to_string()).collect()
}

#[test]
fn normalize_strips_annotation_separators_and_case() {
    assert_eq!(normalize("Hello-World {n}"), "helloworld");
    assert_eq!(normalize("ABC"), "abc");
    assert_eq!(normalize(""), "");
}

#[test]
fn normalize_keeps_unmarked_text() {
    assert_eq!(normalize("走る"), "走る");
    assert_eq!(normalize("run-off line {v}"), "runoffline");
}

#[test]
fn parse_line_splits_marker_lines_only() {
    assert_eq!(
        parse_line("■run : 走る"),
        Some(("run".to_string(), "走る".to_string()))
    );
    assert_eq!(parse_line("comment line"), None);
    assert_eq!(parse_line("■no separator here"), None);
    assert_eq!(parse_line(""), None);
}

#[test]
fn parse_line_trims_marker_and_whitespace() {
    assert_eq!(
        parse_line("■■  Run-Off {n}  :  流出  "),
        Some(("Run-Off {n}".to_string(), "流出".to_string()))
    );
}

#[test]
fn split_entry_takes_first_separator() {
    assert_eq!(
        split_entry("a : b : c"),
        Some(("a".to_string(), "b : c".to_string()))
    );
    assert_eq!(split_entry("no separator"), None);
}

#[test]
fn three_line_fixture_round_trips() {
    let src = lines(&["■run : 走る", "■Run-Off {n} : 流出", "comment line"]);
    let (db, n) = Db::init("/tmp/eijirs_test_fixture", &src).unwrap();
    assert_eq!(n, 2);
    assert!(!db.is_empty());
    let got = db.search("run", 10, 0).unwrap();
    assert_eq!(
        got,
        vec![
            ("run".to_string(), "走る".to_string()),
            ("Run-Off {n}".to_string(), "流出".to_string()),
        ]
    );
}

#[test]
fn zero_limit_always_returns_empty() {
    let src = lines(&["■run : 走る"]);
    let (db, _) = Db::init("/tmp/eijirs_test_zero_limit", &src).unwrap();
    assert_eq!(db.search("run", 0, 0).unwrap(), vec![]);
    assert_eq!(db.search("run", 0, 100).unwrap(), vec![]);
    assert_eq!(db.search("", 0, 7).unwrap(), vec![]);
}

#[test]
fn offset_past_matches_returns_empty() {
    let src = lines(&["■run : 走る", "■Run-Off {n} : 流出"]);
    let (db, _) = Db::init("/tmp/eijirs_test_offset", &src).unwrap();
    assert_eq!(db.search("run", 10, 5).unwrap(), vec![]);
    assert_eq!(db.search("zzz", 10, 1).unwrap(), vec![]);
}

#[test]
fn small_uniform_build_keeps_every_entry_reachable() {
    let src = lines(&[
        "■run : 走る",
        "■Run : ラン",
        "■RUN {n} : 走行",
        "■r-u-n : ランニング",
    ]);
    let (db, n) = Db::init("/tmp/eijirs_test_uniform", &src).unwrap();
    assert_eq!(n, 4);
    let expected = [
        ("run", "走る"),
        ("Run", "ラン"),
        ("RUN {n}", "走行"),
        ("r-u-n", "ランニング"),
    ];
    for (head, trans) in expected.iter() {
        let got = db.search(head, 50, 0).unwrap();
        assert!(
            got.iter().any(|(h, t)| h == head && t == trans),
            "entry not reachable: {head}"
        );
    }
}

#[test]
fn rebuild_forgets_previous_dictionary() {
    let path = "/tmp/eijirs_test_rebuild";
    let old = lines(&["■alpha : 甲", "■beta : 乙"]);
    let first = Db::init(path, &old).unwrap();
    assert_eq!(first.1, 2);
    drop(first);
    let new = lines(&["■gamma : 丙"]);
    let (db, n) = Db::init(path, &new).unwrap();
    assert_eq!(n, 1);
    // The scan has no upper bound, so a query for old data may still reach
    // later keys of the new dictionary — but never an old pair.
    for old_query in ["alpha", "beta"] {
        let got = db.search(old_query, 10, 0).unwrap();
        assert!(got.iter().all(|(h, _)| h != "alpha" && h != "beta"));
        assert!(got.iter().all(|(h, t)| h == "gamma" && t == "丙"));
    }
    // A query past every new key finds nothing at all.
    assert_eq!(db.search("zeta", 10, 0).unwrap(), vec![]);
    let got = db.search("gamma", 10, 0).unwrap();
    assert_eq!(got, vec![("gamma".to_string(), "丙".to_string())]);
}

#[test]
fn open_store_without_init_is_empty() {
    let db = Db::open("/tmp/eijirs_test_untouched").unwrap();
    assert!(db.is_empty());
}

#[test]
fn error_message_reports_context() {
    let io = Error::Io("boom".to_string());
    assert_eq!(io.message(), "boom");
    let corrupt = Error::Corrupt;
    assert_eq!(
        corrupt.message(),
        "index is corrupt: a stored record is not a valid entry"
    );
}

#[test]
fn scroll_down_measures_then_advances() {
    let src = lines(&["■run : 走る", "■Run : ラン"]);
    let (db, _) = Db::init("/tmp/eijirs_test_scroll", &src).unwrap();
    let mut app = App::new();
    let a = app.step(SessionEvent::Edited("run".to_string()), 1);
    assert!(matches!(a, SessionAction::Query));
    app.update_results(&db, 1).unwrap();
    assert_eq!(app.results.len(), 1);
    // The measuring query fills the one-row viewport, so the window moves
    // down and is re-run at the new offset.
    let a = app.step(SessionEvent::ScrollDown, 1);
    assert!(matches!(a, SessionAction::Scroll));
    app.scroll_down(&db, 1).unwrap();
    assert_eq!(app.offset, 1);
    assert_eq!(app.results, vec![("Run".to_string(), "ラン".to_string())]);
    // A scroll-up right after returns the offset to its prior value.
    let a = app.step(SessionEvent::ScrollUp, 1);
    assert!(matches!(a, SessionAction::Query));
    app.update_results(&db, 1).unwrap();
    assert_eq!(app.offset, 0);
    assert_eq!(app.results, vec![("run".to_string(), "走る".to_string())]);
}

#[test]
fn scroll_down_holds_still_on_a_short_measurement() {
    let src = lines(&["■run : 走る", "■Run : ラン"]);
    let (db, _) = Db::init("/tmp/eijirs_test_scroll_short", &src).unwrap();
    let mut app = App::new();
    app.step(SessionEvent::Edited("run".to_string()), 10);
    app.update_results(&db, 10).unwrap();
    // Two results against a ten-row viewport: the fresh count is short, so
    // the window stays put and holds the fresh results.
    app.scroll_down(&db, 10).unwrap();
    assert_eq!(app.offset, 0);
    assert_eq!(app.results.len(), 2);
    // Even with a stale, empty cached window the scroll-down still
    // measures: the one-row viewport is filled, so the window advances.
    app.apply_results(vec![]);
    app.scroll_down(&db, 1).unwrap();
    assert_eq!(app.offset, 1);
    assert_eq!(app.results, vec![("Run".to_string(), "ラン".to_string())]);
}

#[test]
fn scroll_heuristics_hold_at_boundaries() {
    let mut app = App::new();
    let a = app.step(SessionEvent::ScrollUp, 5);
    assert!(matches!(a, SessionAction::Redraw));
    assert_eq!(app.offset, 0);
    let a = app.step(SessionEvent::ScrollDown, 5);
    assert!(matches!(a, SessionAction::Scroll));
    assert_eq!(app.offset, 0);
}

#[test]
fn edits_commit_and_reset_offset() {
    let mut app = App::new();
    app.offset = 3;
    let a = app.step(SessionEvent::Edited("run".to_string()), 1);
    assert!(matches!(a, SessionAction::Query));
    assert_eq!(app.offset, 0);
    assert_eq!(app.prev, "run");
    let a = app.step(SessionEvent::Edited("run".to_string()), 1);
    assert!(matches!(a, SessionAction::Redraw));
    let a = app.step(SessionEvent::Edited("".to_string()), 1);
    assert!(matches!(a, SessionAction::Redraw));
    assert_eq!(app.prev, "run");
    let a = app.step(SessionEvent::Quit, 1);
    assert!(matches!(a, SessionAction::Exit));
    let a = app.step(SessionEvent::Other, 1);
    assert!(matches!(a, SessionAction::Redraw));
}

#[test]
fn rerun_uses_the_committed_query_not_the_live_input() {
    let src = lines(&["■run : 走る", "■zzz : 最後"]);
    let (db, _) = Db::init("/tmp/eijirs_test_committed", &src).unwrap();
    let mut app = App::new();
    app.step(SessionEvent::Edited("zzz".to_string()), 10);
    app.update_results(&db, 10).unwrap();
    assert_eq!(app.results, vec![("zzz".to_string(), "最後".to_string())]);
    // Editing down to empty text does not commit; a re-run still queries
    // the committed word, not everything.
    let a = app.step(SessionEvent::Edited("".to_string()), 10);
    assert!(matches!(a, SessionAction::Redraw));
    app.update_results(&db, 10).unwrap();
    assert_eq!(app.results, vec![("zzz".to_string(), "最後".to_string())]);
    app.scroll_down(&db, 10).unwrap();
    assert_eq!(app.offset, 0);
    assert_eq!(app.results, vec![("zzz".to_string(), "最後".to_string())]);
}

#[test]
fn result_row_projects_headword_and_translation() {
    assert_eq!(result_row("run", "走る"), "run: 走る");
    assert_eq!(result_row("", ""), ": ");
}

#[test]
fn list_height_reserves_chrome_rows_and_floors_at_one() {
    assert_eq!(get_list_height(10), 6);
    assert_eq!(get_list_height(5), 1);
    assert_eq!(get_list_height(4), 1);
    assert_eq!(get_list_height(0), 1);
}

#[test]
fn input_box_geometry_keeps_cursor_inside() {
    assert_eq!(input_box_inner_width(80), 77);
    assert_eq!(input_box_inner_width(2), 0);
    assert_eq!(cursor_column(10, 4), 7);
    assert_eq!(cursor_column(3, 4), 1);
    assert_eq!(cursor_column(0, 0), 1);
}

#[test]
fn session_queries_through_the_store() {
    let src = lines(&["■run : 走る", "■Run-Off {n} : 流出"]);
    let (db, _) = Db::init("/tmp/eijirs_test_session", &src).unwrap();
    let mut app = App::new();
    let a = app.step(SessionEvent::Edited("run".to_string()), 10);
    assert!(matches!(a, SessionAction::Query));
    app.update_results(&db, 10).unwrap();
    assert_eq!(app.results.len(), 2);
    assert_eq!(app.results[0], ("run".to_string(), "走る".to_string()));
}

#[test]
fn index_span_strides_report_running_counts() {
    let (mut db, n0) = Db::init("/tmp/eijirs_test_span", &lines(&[])).unwrap();
    assert_eq!(n0, 0);
    let src = lines(&["■run : 走る", "comment line", "■Run : ラン"]);
    let (next, count) = db.index_span(&src, 0, 0).unwrap();
    assert_eq!(next, 3);
    assert_eq!(count, 2);
    assert_eq!(db.search("run", 10, 0).unwrap().len(), 2);
    // An empty stride from the end changes nothing.
    let (next, count) = db.index_span(&src, 3, count).unwrap();
    assert_eq!(next, 3);
    assert_eq!(count, 2);
}
