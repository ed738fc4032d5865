use glit::git::{BlameLine, ChangedFile, Commit};
use glit::state::{
    App, BlameCacheState, BlameView, BranchState, Cache, ChangedFilesState, DiffState, Focus, Key,
    KeyAction, LoadMsg, LoadRequest,
};

fn commit(hash: &str, author: &str, subject: &str) -> Commit {
    Commit {
        hash: hash.to_string(),
        short_hash: hash.chars().take(7).collect(),
        author: author.to_string(),
        author_email: format!("{}@example.com", author),
        date: "now".to_string(),
        subject: subject.to_string(),
        graph: "* ".to_string(),
    }
}

fn sample() -> Vec<Commit> {
    vec![
        commit("aaaaaaa1", "Alice", "fix: parser"),
        commit("bbbbbbb2", "Bob", "feat: blame view"),
        commit("ccccccc3", "alice smith", "docs: readme"),
    ]
}

fn file(path: &str) -> ChangedFile {
    ChangedFile { path: path.to_string(), status: "M".to_string(), additions: Some(1), deletions: Some(2) }
}

fn blame_line(n: usize) -> BlameLine {
    BlameLine {
        line_no: n,
        commit_hash: "aaaaaaa1".to_string(),
        short_hash: "aaaaaaa".to_string(),
        author: "Alice".to_string(),
        author_time: 0,
        content: format!("line {}", n),
    }
}

#[test]
fn cache_starts_empty() {
    let c = Cache::new();
    assert!(c.diff("x").is_none());
    assert!(c.branch("x").is_none());
    assert!(c.changed_files_for("x").is_none());
    assert!(c.blame_for("x", "p").is_none());
}

#[test]
fn cache_read_after_write() {
    let mut c = Cache::new();
    c.insert_diff("h1".to_string(), DiffState::Loading);
    c.insert_diff("h2".to_string(), DiffState::Loaded("d2".to_string()));
    c.insert_diff("h1".to_string(), DiffState::Failed("boom".to_string()));
    assert!(matches!(c.diff("h1"), Some(DiffState::Failed(m)) if m == "boom"));
    assert!(matches!(c.diff("h2"), Some(DiffState::Loaded(d)) if d == "d2"));
    assert!(c.diff("h3").is_none());
    assert!(c.branch("h1").is_none());
    c.insert_blame("h1".to_string(), "a.rs".to_string(), BlameCacheState::Loading);
    assert!(matches!(c.blame_for("h1", "a.rs"), Some(BlameCacheState::Loading)));
    assert!(c.blame_for("h1", "b.rs").is_none());
    assert!(c.blame_for("h2", "a.rs").is_none());
}

#[test]
fn cache_apply_messages() {
    let mut c = Cache::new();
    c.apply(LoadMsg::Diff { hash: "h".to_string(), result: Err("no".to_string()) });
    c.apply(LoadMsg::Branch { hash: "h".to_string(), result: "main".to_string() });
    c.apply(LoadMsg::ChangedFiles { hash: "h".to_string(), result: Ok(vec![file("a.rs")]) });
    c.apply(LoadMsg::Blame {
        hash: "h".to_string(),
        path: "a.rs".to_string(),
        result: Ok(vec![blame_line(1)]),
    });
    assert!(matches!(c.diff("h"), Some(DiffState::Failed(m)) if m == "no"));
    assert!(matches!(c.branch("h"), Some(BranchState::Loaded(b)) if b == "main"));
    assert!(matches!(c.changed_files_for("h"), Some(ChangedFilesState::Loaded(f)) if f.len() == 1));
    assert!(matches!(c.blame_for("h", "a.rs"), Some(BlameCacheState::Loaded(l)) if l.len() == 1));
}

#[test]
fn app_new_selects_first() {
    let app = App::new(sample(), 100);
    assert_eq!(app.filtered, vec![0, 1, 2]);
    assert_eq!(app.list_selected, Some(0));
    assert_eq!(app.files_selected, Some(0));
    assert_eq!(app.focus, Focus::List);
    assert_eq!(app.diff_char_limit, 100);
    assert_eq!(app.selected_hash().as_deref(), Some("aaaaaaa1"));
    let empty = App::new(Vec::new(), 1);
    assert_eq!(empty.list_selected, None);
    assert!(empty.selected_commit().is_none());
}

#[test]
fn app_moves_and_undoes() {
    let mut app = App::new(sample(), 100);
    app.move_up();
    assert_eq!(app.list_selected, Some(0));
    app.move_down();
    app.move_down();
    assert_eq!(app.list_selected, Some(2));
    app.move_down();
    assert_eq!(app.list_selected, Some(2));
    app.move_up();
    app.move_down();
    assert_eq!(app.list_selected, Some(2));
    assert_eq!(app.selected_hash().as_deref(), Some("ccccccc3"));
}

#[test]
fn app_scroll_saturates_and_undoes() {
    let mut app = App::new(sample(), 100);
    app.scroll_diff_up();
    assert_eq!(app.diff_scroll, 0);
    app.scroll_diff_down();
    app.scroll_diff_down();
    assert_eq!(app.diff_scroll, 6);
    app.scroll_diff_up();
    assert_eq!(app.diff_scroll, 3);
    app.diff_scroll = u16::MAX - 1;
    app.scroll_diff_down();
    assert_eq!(app.diff_scroll, u16::MAX);
    app.move_down();
    assert_eq!(app.diff_scroll, 0);
}

#[test]
fn filter_by_author_ignores_case() {
    let mut app = App::new(sample(), 100);
    app.query = "@ALICE".to_string();
    app.update_filter();
    assert_eq!(app.filtered, vec![0, 2]);
    assert_eq!(app.list_selected, Some(0));
    app.query = "@".to_string();
    app.update_filter();
    assert_eq!(app.filtered, vec![0, 1, 2]);
}

#[test]
fn filter_fuzzy_on_subject_and_author() {
    let mut app = App::new(sample(), 100);
    app.query = "fbv".to_string();
    app.update_filter();
    assert_eq!(app.filtered, vec![1]);
    app.query = "readme smith".to_string();
    app.update_filter();
    assert_eq!(app.filtered, vec![2]);
    app.query = "FIX".to_string();
    app.update_filter();
    assert!(app.filtered.is_empty());
    assert_eq!(app.list_selected, None);
    assert!(app.selected_hash().is_none());
    app.query = "".to_string();
    app.update_filter();
    assert_eq!(app.filtered, vec![0, 1, 2]);
}

#[test]
fn begin_loads_requests_each_kind_once() {
    let mut app = App::new(sample(), 100);
    let reqs = app.begin_loads();
    assert_eq!(reqs.len(), 3);
    assert!(matches!(&reqs[0], LoadRequest::Diff(h) if h == "aaaaaaa1"));
    assert!(matches!(&reqs[1], LoadRequest::Branch(h) if h == "aaaaaaa1"));
    assert!(matches!(&reqs[2], LoadRequest::ChangedFiles(h) if h == "aaaaaaa1"));
    assert!(matches!(app.cache.diff("aaaaaaa1"), Some(DiffState::Loading)));
    let again = app.begin_loads();
    assert!(again.is_empty());
}

#[test]
fn begin_blame_load_once() {
    let mut app = App::new(sample(), 100);
    assert!(app.begin_blame_load("aaaaaaa1", "a.rs"));
    assert!(!app.begin_blame_load("aaaaaaa1", "a.rs"));
    assert!(app.begin_blame_load("aaaaaaa1", "b.rs"));
}

#[test]
fn files_and_blame_navigation() {
    let mut app = App::new(sample(), 100);
    assert_eq!(app.changed_files_len(), 0);
    app.move_file_down();
    assert_eq!(app.files_selected, Some(0));
    app.cache.insert_changed_files(
        "aaaaaaa1".to_string(),
        ChangedFilesState::Loaded(vec![file("a.rs"), file("b.rs")]),
    );
    assert_eq!(app.changed_files_len(), 2);
    app.move_file_down();
    app.move_file_down();
    assert_eq!(app.files_selected, Some(1));
    assert_eq!(app.selected_changed_file().map(|f| f.path.as_str()), Some("b.rs"));
    app.move_file_up();
    app.move_file_up();
    assert_eq!(app.files_selected, Some(0));
    app.open_blame("aaaaaaa1".to_string(), "a.rs".to_string());
    assert_eq!(app.focus, Focus::Preview);
    assert_eq!(app.blame_line_count(), 0);
    app.cache.insert_blame(
        "aaaaaaa1".to_string(),
        "a.rs".to_string(),
        BlameCacheState::Loaded(vec![blame_line(1), blame_line(2)]),
    );
    assert_eq!(app.blame_line_count(), 2);
    app.blame_move_down();
    app.blame_move_down();
    assert_eq!(app.blame_view.as_ref().unwrap().selected_line, 1);
    app.blame_move_up();
    app.blame_move_up();
    assert_eq!(app.blame_view.as_ref().unwrap().selected_line, 0);
    app.close_blame();
    assert!(app.blame_view.is_none());
}

#[test]
fn keys_tab_cycles_focus() {
    let mut app = App::new(sample(), 100);
    assert!(matches!(app.handle_key(Key::Tab), KeyAction::Continue));
    assert_eq!(app.focus, Focus::Files);
    app.handle_key(Key::Tab);
    assert_eq!(app.focus, Focus::Preview);
    app.handle_key(Key::Tab);
    assert_eq!(app.focus, Focus::List);
}

#[test]
fn keys_typing_filters_and_loads() {
    let mut app = App::new(sample(), 100);
    match app.handle_key(Key::Char('@')) {
        KeyAction::Load(reqs) => assert_eq!(reqs.len(), 3),
        other => panic!("unexpected: {:?}", other),
    }
    app.handle_key(Key::Char('b'));
    assert_eq!(app.query, "@b");
    assert_eq!(app.filtered, vec![1]);
    match app.handle_key(Key::Backspace) {
        KeyAction::Load(reqs) => assert!(reqs.is_empty()),
        other => panic!("unexpected: {:?}", other),
    }
    assert_eq!(app.query, "@");
    assert_eq!(app.filtered, vec![0, 1, 2]);
    match app.handle_key(Key::Down) {
        KeyAction::Load(reqs) => assert!(reqs.is_empty()),
        other => panic!("unexpected: {:?}", other),
    }
    assert_eq!(app.list_selected, Some(1));
}

#[test]
fn keys_esc_closes_blame_then_quits() {
    let mut app = App::new(sample(), 100);
    app.cache.insert_changed_files(
        "aaaaaaa1".to_string(),
        ChangedFilesState::Loaded(vec![file("a.rs")]),
    );
    app.handle_key(Key::Tab);
    match app.handle_key(Key::Char('b')) {
        KeyAction::Load(reqs) => {
            assert_eq!(reqs.len(), 1);
            assert!(matches!(&reqs[0], LoadRequest::Blame(h, p) if h == "aaaaaaa1" && p == "a.rs"));
        }
        other => panic!("unexpected: {:?}", other),
    }
    assert_eq!(app.focus, Focus::Preview);
    assert!(app.blame_view.is_some());
    assert!(matches!(app.handle_key(Key::Esc), KeyAction::Continue));
    assert!(app.blame_view.is_none());
    assert!(matches!(app.handle_key(Key::Esc), KeyAction::Quit));
}

#[test]
fn keys_enter_copies_selected_hash() {
    let mut app = App::new(sample(), 100);
    match app.handle_key(Key::Enter) {
        KeyAction::Copy(h) => assert_eq!(h, "aaaaaaa1"),
        other => panic!("unexpected: {:?}", other),
    }
    app.record_copy("aaaaaaa1", true);
    assert_eq!(app.status, "Copied: aaaaaaa1");
    app.record_copy("aaaaaaa1", false);
    assert_eq!(app.status, "Failed to copy");
}

#[test]
fn keys_preview_scrolls_without_blame() {
    let mut app = App::new(sample(), 100);
    app.handle_key(Key::Tab);
    app.handle_key(Key::Tab);
    app.handle_key(Key::PageDown);
    app.handle_key(Key::Char('j'));
    assert_eq!(app.diff_scroll, 6);
    app.handle_key(Key::Up);
    assert_eq!(app.diff_scroll, 3);
    app.handle_key(Key::Other);
    assert_eq!(app.diff_scroll, 3);
}

#[test]
fn blame_view_fit_scroll() {
    let mut bv = BlameView {
        commit_hash: "h".to_string(),
        file_path: "p".to_string(),
        selected_line: 30,
        scroll_offset: 0,
    };
    bv.fit_scroll(10, 100);
    assert_eq!(bv.scroll_offset, 21);
    bv.selected_line = 5;
    bv.fit_scroll(10, 100);
    assert_eq!(bv.scroll_offset, 5);
    bv.selected_line = 99;
    bv.scroll_offset = 95;
    bv.fit_scroll(10, 100);
    assert_eq!(bv.scroll_offset, 90);
    bv.fit_scroll(0, 100);
    assert_eq!(bv.scroll_offset, 90);
}

#[test]
fn cache_history_keeps_last_write() {
    let mut c = Cache::new();
    c.insert_diff("h1".to_string(), DiffState::Loading);
    c.insert_branch("h1".to_string(), BranchState::Loading);
    c.insert_changed_files("h1".to_string(), ChangedFilesState::Loading);
    c.insert_diff("h2".to_string(), DiffState::Loading);
    assert!(c.diff("h2").is_some());
    c.insert_branch("h1".to_string(), BranchState::Loaded("main".to_string()));
    c.insert_diff("h1".to_string(), DiffState::Loaded("d1".to_string()));
    c.insert_blame("h1".to_string(), "a.rs".to_string(), BlameCacheState::Loading);
    assert!(matches!(c.diff("h1"), Some(DiffState::Loaded(d)) if d == "d1"));
    assert!(matches!(c.diff("h2"), Some(DiffState::Loading)));
    assert!(matches!(c.branch("h1"), Some(BranchState::Loaded(b)) if b == "main"));
    assert!(matches!(c.changed_files_for("h1"), Some(ChangedFilesState::Loading)));
    assert!(c.changed_files_for("h2").is_none());
    assert!(c.branch("h2").is_none());
}
