use glit::error::AppError;
use glit::git::{
    branch_label, log_failure, parse_blame, parse_changed_files, parse_git_log, truncate_diff,
};

fn make_line(
    hash: &str,
    short: &str,
    author: &str,
    email: &str,
    date: &str,
    subject: &str,
    graph: &str,
) -> String {
    format!(
        "{}{}\x00{}\x00{}\x00{}\x00{}\x00{}\x00",
        graph, hash, short, author, email, date, subject
    )
}

#[test]
fn test_parse_basic() {
    let hash = "a1b2c3d4e5f6a1b2c3d4e5f6a1b2c3d4e5f6a1b2";
    let line = make_line(
        hash,
        "a1b2c3d",
        "Alice",
        "alice@example.com",
        "2 days ago",
        "fix: something",
        "* ",
    );
    let commits = parse_git_log(&line).unwrap();
    assert_eq!(commits.len(), 1);
    assert_eq!(commits[0].hash, hash);
    assert_eq!(commits[0].author, "Alice");
    assert_eq!(commits[0].subject, "fix: something");
}

#[test]
fn test_parse_pipe_in_subject() {
    let hash = "b2c3d4e5f6a1b2c3d4e5f6a1b2c3d4e5f6a1b2c3";
    let line = make_line(
        hash,
        "b2c3d4e",
        "Bob|Pipe",
        "bob@x.com",
        "1 hour ago",
        "feat: a|b|c pipe test",
        "* ",
    );
    let commits = parse_git_log(&line).unwrap();
    assert_eq!(commits[0].author, "Bob|Pipe");
    assert_eq!(commits[0].subject, "feat: a|b|c pipe test");
}

#[test]
fn test_parse_graph_only_line_ignored() {
    let raw = "|\n| * a1b2c3d4e5f6a1b2c3d4e5f6a1b2c3d4e5f6a1b2\x00a1b2c3d\x00Author\x00a@b.com\x00now\x00msg\x00\n|";
    let commits = parse_git_log(raw).unwrap();
    assert_eq!(commits.len(), 1);
}

#[test]
fn test_parse_empty_input() {
    let commits = parse_git_log("").unwrap();
    assert!(commits.is_empty());
}

#[test]
fn test_parse_multiple_commits() {
    let h1 = "aaaaaaaaaaaaaaaaaaaaaaaaaaaaaaaaaaaaaaaa";
    let h2 = "bbbbbbbbbbbbbbbbbbbbbbbbbbbbbbbbbbbbbbbb";
    let raw = format!(
        "{}\x00{}\x00A1\x00a@b.com\x00now\x00msg1\x00\n{}\x00{}\x00A2\x00b@c.com\x00then\x00msg2\x00",
        h1,
        &h1[..7],
        h2,
        &h2[..7]
    );
    let commits = parse_git_log(&raw).unwrap();
    assert_eq!(commits.len(), 2);
    assert_eq!(commits[0].subject, "msg1");
    assert_eq!(commits[1].subject, "msg2");
}

#[test]
fn test_parse_changed_files_basic() {
    let raw = ":100644 100644 aaa bbb M\x00src/main.rs\x00:000000 100644 000 ccc A\x00src/new.rs\x00\
                3\t1\tsrc/main.rs\x005\t0\tsrc/new.rs\x00";
    let files = parse_changed_files(raw);
    assert_eq!(files.len(), 2);
    assert_eq!(files[0].path, "src/main.rs");
    assert_eq!(files[0].status, "M");
    assert_eq!(files[0].additions, Some(3));
    assert_eq!(files[0].deletions, Some(1));
    assert_eq!(files[1].path, "src/new.rs");
    assert_eq!(files[1].status, "A");
    assert_eq!(files[1].additions, Some(5));
    assert_eq!(files[1].deletions, Some(0));
}

#[test]
fn test_parse_changed_files_rename() {
    let raw = ":100644 100644 aaa bbb R097\x00old.rs\x00new.rs\x00\
                1\t0\t\x00old.rs\x00new.rs\x00";
    let files = parse_changed_files(raw);
    assert_eq!(files.len(), 1);
    assert_eq!(files[0].path, "new.rs");
    assert_eq!(files[0].status, "R097");
    assert_eq!(files[0].additions, Some(1));
    assert_eq!(files[0].deletions, Some(0));
}

#[test]
fn test_parse_changed_files_deleted() {
    let raw = ":100644 000000 aaa 000 D\x00gone.rs\x00\
                0\t42\tgone.rs\x00";
    let files = parse_changed_files(raw);
    assert_eq!(files.len(), 1);
    assert_eq!(files[0].status, "D");
    assert_eq!(files[0].deletions, Some(42));
}

#[test]
fn test_parse_changed_files_binary() {
    let raw = ":100644 100644 aaa bbb M\x00image.png\x00-\t-\timage.png\x00";
    let files = parse_changed_files(raw);
    assert_eq!(files.len(), 1);
    assert_eq!(files[0].additions, None);
    assert_eq!(files[0].deletions, None);
}

#[test]
fn test_parse_changed_files_empty() {
    let files = parse_changed_files("");
    assert!(files.is_empty());
}

fn blame_block(
    hash: &str,
    orig_line: usize,
    final_line: usize,
    group: Option<usize>,
    author: &str,
    author_time: i64,
    content: &str,
) -> String {
    let header = match group {
        Some(g) => format!("{} {} {} {}", hash, orig_line, final_line, g),
        None => format!("{} {} {}", hash, orig_line, final_line),
    };
    format!(
        "{}\nauthor {}\nauthor-mail <{}@example.com>\nauthor-time {}\nauthor-tz +0000\ncommitter {}\ncommitter-mail <{}@example.com>\ncommitter-time {}\ncommitter-tz +0000\nsummary msg\nfilename file.rs\n\t{}\n",
        header, author, author, author_time, author, author, author_time, content
    )
}

#[test]
fn test_parse_blame_basic() {
    let hash = "a1b2c3d4e5f6a1b2c3d4e5f6a1b2c3d4e5f6a1b2";
    let raw = blame_block(hash, 1, 1, Some(1), "Alice", 1700000000, "fn main() {}");
    let lines = parse_blame(&raw);
    assert_eq!(lines.len(), 1);
    assert_eq!(lines[0].line_no, 1);
    assert_eq!(lines[0].commit_hash, hash);
    assert_eq!(lines[0].short_hash, hash[..7]);
    assert_eq!(lines[0].author, "Alice");
    assert_eq!(lines[0].author_time, 1700000000);
    assert_eq!(lines[0].content, "fn main() {}");
}

#[test]
fn test_parse_blame_multiple_lines_same_group() {
    let hash = "b2c3d4e5f6a1b2c3d4e5f6a1b2c3d4e5f6a1b2c3";
    let mut raw = blame_block(hash, 1, 1, Some(2), "Bob", 1600000000, "line one");
    raw.push_str(&blame_block(
        hash, 2, 2, None, "Bob", 1600000000, "line two",
    ));
    let lines = parse_blame(&raw);
    assert_eq!(lines.len(), 2);
    assert_eq!(lines[0].content, "line one");
    assert_eq!(lines[1].content, "line two");
    assert_eq!(lines[1].line_no, 2);
}

#[test]
fn test_parse_blame_unicode_content_and_author() {
    let hash = "c3d4e5f6a1b2c3d4e5f6a1b2c3d4e5f6a1b2c3d4";
    let raw = blame_block(
        hash,
        1,
        1,
        Some(1),
        "bytewx",
        1650000000,
        "let s = \"unicode support\";",
    );
    let lines = parse_blame(&raw);
    assert_eq!(lines.len(), 1);
    assert_eq!(lines[0].author, "bytewx");
    assert_eq!(lines[0].content, "let s = \"unicode support\";");
}

#[test]
fn test_parse_blame_unusual_author_names() {
    let hash = "d4e5f6a1b2c3d4e5f6a1b2c3d4e5f6a1b2c3d4e5";
    let raw = blame_block(
        hash,
        1,
        1,
        Some(1),
        "Anne-Marie O'Neil-Smith Jr.",
        1690000000,
        "content",
    );
    let lines = parse_blame(&raw);
    assert_eq!(lines[0].author, "Anne-Marie O'Neil-Smith Jr.");
}

#[test]
fn test_parse_blame_content_resembling_header() {
    let hash = "e5f6a1b2c3d4e5f6a1b2c3d4e5f6a1b2c3d4e5f6";
    let raw = blame_block(
        hash,
        1,
        1,
        Some(1),
        "Alice",
        1700000000,
        "author 12 34 not a real header",
    );
    let lines = parse_blame(&raw);
    assert_eq!(lines.len(), 1);
    assert_eq!(lines[0].content, "author 12 34 not a real header");
    assert_eq!(lines[0].author, "Alice");
}

#[test]
fn test_parse_blame_empty_line_content() {
    let hash = "f6a1b2c3d4e5f6a1b2c3d4e5f6a1b2c3d4e5f6a1";
    let raw = blame_block(hash, 1, 1, Some(1), "Alice", 1700000000, "");
    let lines = parse_blame(&raw);
    assert_eq!(lines.len(), 1);
    assert_eq!(lines[0].content, "");
}

#[test]
fn test_parse_blame_empty_input() {
    let lines = parse_blame("");
    assert!(lines.is_empty());
}

#[test]
fn parse_git_log_keeps_graph_and_all_fields() {
    let line = make_line(
        "0123456789abcdef0123456789abcdef01234567",
        "0123456",
        "Carol",
        "carol@example.com",
        "3 weeks ago",
        "docs: readme",
        "| * ",
    );
    let commits = parse_git_log(&line).unwrap();
    assert_eq!(commits.len(), 1);
    assert_eq!(commits[0].graph, "| * ");
    assert_eq!(commits[0].hash, "0123456789abcdef0123456789abcdef01234567");
    assert_eq!(commits[0].short_hash, "0123456");
    assert_eq!(commits[0].author, "Carol");
    assert_eq!(commits[0].author_email, "carol@example.com");
    assert_eq!(commits[0].date, "3 weeks ago");
    assert_eq!(commits[0].subject, "docs: readme");
}

#[test]
fn parse_git_log_box_drawing_graph() {
    let raw = "│ ● a1\x00a\x00x\x00y\x00z\x00s\x00\r\n";
    let commits = parse_git_log(raw).unwrap();
    assert_eq!(commits.len(), 1);
    assert_eq!(commits[0].graph, "│ ");
    assert_eq!(commits[0].hash, "● a1");
    assert_eq!(commits[0].subject, "s");
}

#[test]
fn parse_git_log_malformed_line() {
    match parse_git_log("* a\x00b\x00c") {
        Err(AppError::MalformedOutput(msg)) => {
            assert_eq!(msg, "expected 6 NUL-separated fields, got 3: [\"a\", \"b\", \"c\"]");
        }
        other => panic!("unexpected result: {:?}", other),
    }
}

#[test]
fn parse_git_log_error_after_good_line() {
    let good = make_line("aa", "a", "A", "a@b", "now", "m", "* ");
    let raw = format!("{}\n* bb\x00b\n", good);
    assert!(matches!(parse_git_log(&raw), Err(AppError::MalformedOutput(_))));
}

#[test]
fn parse_git_log_line_without_nul_is_skipped() {
    let commits = parse_git_log("|\\\n| |\n|/\n").unwrap();
    assert!(commits.is_empty());
}

#[test]
fn parse_changed_files_copy_and_tab_in_path() {
    let raw = ":100644 100644 aaa bbb C075\x00src/a.rs\x00src/b.rs\x00\
               :100644 100644 aaa bbb M\x00odd\tname.rs\x00\
               2\t0\t\x00src/a.rs\x00src/b.rs\x007\t3\todd\tname.rs\x00";
    let files = parse_changed_files(raw);
    assert_eq!(files.len(), 2);
    assert_eq!(files[0].path, "src/b.rs");
    assert_eq!(files[0].status, "C075");
    assert_eq!(files[0].additions, Some(2));
    assert_eq!(files[0].deletions, Some(0));
    assert_eq!(files[1].path, "odd\tname.rs");
    assert_eq!(files[1].status, "M");
    assert_eq!(files[1].additions, Some(7));
    assert_eq!(files[1].deletions, Some(3));
}

#[test]
fn parse_changed_files_missing_numstat() {
    let raw = ":100644 100644 aaa bbb M\x00a.rs\x00:100644 100644 aaa bbb M\x00b.rs\x00\
               1\t1\ta.rs\x00";
    let files = parse_changed_files(raw);
    assert_eq!(files.len(), 1);
    assert_eq!(files[0].path, "a.rs");
}

#[test]
fn parse_changed_files_count_overflow_and_plus() {
    let raw = ":100644 100644 aaa bbb M\x00a.rs\x00+4\t99999999999\ta.rs\x00";
    let files = parse_changed_files(raw);
    assert_eq!(files.len(), 1);
    assert_eq!(files[0].additions, Some(4));
    assert_eq!(files[0].deletions, None);
}

#[test]
fn parse_changed_files_status_with_trailing_space() {
    let raw = ":100644 100644 aaa bbb M \x00a.rs\x001\t2\ta.rs\x00";
    let files = parse_changed_files(raw);
    assert_eq!(files[0].status, "M");
}

#[test]
fn parse_blame_content_before_header_is_dropped() {
    let raw = "\tstray\nabc 1 1 1\nauthor X\nauthor-time  42 \n\tkept\n";
    let lines = parse_blame(raw);
    assert_eq!(lines.len(), 1);
    assert_eq!(lines[0].content, "kept");
    assert_eq!(lines[0].author, "X");
    assert_eq!(lines[0].author_time, 42);
    assert_eq!(lines[0].short_hash, "abc");
    assert_eq!(lines[0].line_no, 1);
}

#[test]
fn parse_blame_crlf_and_bad_time() {
    let raw = "abcdef0123 3 7\r\nauthor-time -12x\r\n\tline\r\n";
    let lines = parse_blame(raw);
    assert_eq!(lines.len(), 1);
    assert_eq!(lines[0].line_no, 7);
    assert_eq!(lines[0].author_time, 0);
    assert_eq!(lines[0].content, "line");
    assert_eq!(lines[0].short_hash, "abcdef0");
}

#[test]
fn parse_blame_negative_time() {
    let raw = "ab 1 5\nauthor-time -100\n\tx\n";
    let lines = parse_blame(raw);
    assert_eq!(lines[0].author_time, -100);
    assert_eq!(lines[0].line_no, 5);
}

#[test]
fn truncate_diff_cuts_and_notes() {
    assert_eq!(truncate_diff("abcdef".to_string(), 3), "abc\n... (diff truncated)");
    assert_eq!(truncate_diff("abc".to_string(), 3), "abc");
    assert_eq!(truncate_diff("äöü".to_string(), 2), "äö\n... (diff truncated)");
}

#[test]
fn branch_label_counts() {
    assert_eq!(branch_label(""), "");
    assert_eq!(branch_label("main\n"), "main");
    assert_eq!(branch_label("\nmain\n\ndev\n"), "main +1");
    assert_eq!(branch_label("main\ndev\nfeat\nother\n"), "main +2");
}

#[test]
fn log_failure_classifies() {
    assert!(matches!(
        log_failure("fatal: not a git repository (or any of the parent directories): .git".to_string()),
        AppError::NotAGitRepo
    ));
    assert!(matches!(log_failure("fatal: bad revision".to_string()), AppError::NotAGitRepo));
    match log_failure("error: something".to_string()) {
        AppError::GitCommandFailed(m) => assert_eq!(m, "error: something"),
        other => panic!("unexpected: {:?}", other),
    }
}
