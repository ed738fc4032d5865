use glit::config::Config;
use glit::error::AppError;
use glit::ui::{
    author_color, civil_from_days, diff_line_color, file_stats, format_unix_date, status_line,
    status_style, truncate, UiColor,
};

#[test]
fn civil_dates() {
    assert_eq!(civil_from_days(0), (1970, 1, 1));
    assert_eq!(civil_from_days(-1), (1969, 12, 31));
    assert_eq!(civil_from_days(11016), (2000, 2, 29));
    assert_eq!(civil_from_days(19675), (2023, 11, 14));
    assert_eq!(civil_from_days(-719528), (0, 1, 1));
    assert_eq!(civil_from_days(2932897), (10000, 1, 1));
}

#[test]
fn unix_dates() {
    assert_eq!(format_unix_date(0), "1970-01-01");
    assert_eq!(format_unix_date(1700000000), "2023-11-14");
    assert_eq!(format_unix_date(-1), "1969-12-31");
    assert_eq!(format_unix_date(86399), "1970-01-01");
    assert_eq!(format_unix_date(86400), "1970-01-02");
    assert_eq!(format_unix_date(-62167219200), "0000-01-01");
    assert_eq!(format_unix_date(-62167219201), "-001-12-31");
    assert_eq!(format_unix_date(253402300800), "10000-01-01");
    assert_eq!(format_unix_date(i64::MIN).is_empty(), false);
    assert_eq!(format_unix_date(i64::MAX).is_empty(), false);
}

#[test]
fn truncate_counts_characters() {
    assert_eq!(truncate("hello", 10), "hello");
    assert_eq!(truncate("hello", 3), "hel");
    assert_eq!(truncate("añb", 2), "añ");
    assert_eq!(truncate("", 0), "");
}

#[test]
fn author_colors() {
    assert_eq!(author_color("Alice"), UiColor::LightGreen);
    assert_eq!(author_color("Bob"), UiColor::Red);
    assert_eq!(author_color(""), UiColor::Cyan);
    assert_eq!(author_color("Zoë"), UiColor::LightMagenta);
    assert_eq!(author_color("Alice"), author_color("Alice"));
}

#[test]
fn status_styles() {
    assert_eq!(status_style("M"), (UiColor::Yellow, "M".to_string()));
    assert_eq!(status_style("R097"), (UiColor::Magenta, "R".to_string()));
    assert_eq!(status_style(""), (UiColor::Gray, "?".to_string()));
    assert_eq!(status_style("A"), (UiColor::Green, "A".to_string()));
}

#[test]
fn diff_line_colors() {
    assert_eq!(diff_line_color("+added"), UiColor::Green);
    assert_eq!(diff_line_color("+++ b/x"), UiColor::Gray);
    assert_eq!(diff_line_color("-gone"), UiColor::Red);
    assert_eq!(diff_line_color("--- a/x"), UiColor::Gray);
    assert_eq!(diff_line_color("@@ -1 +1 @@"), UiColor::Cyan);
    assert_eq!(diff_line_color("diff --git a b"), UiColor::Magenta);
    assert_eq!(diff_line_color("index 123..456"), UiColor::Magenta);
    assert_eq!(diff_line_color(" context"), UiColor::Gray);
}

#[test]
fn file_stats_text() {
    assert_eq!(file_stats(Some(3), Some(10)), "+3 -10");
    assert_eq!(file_stats(None, None), "bin");
    assert_eq!(file_stats(Some(1), None), "bin");
}

#[test]
fn status_line_text() {
    assert_eq!(status_line(""), " Enter — copy hash");
    assert_eq!(status_line("Copied: abc"), " ✓ Copied: abc");
}

#[test]
fn config_defaults() {
    let c = Config::default();
    assert_eq!(c.max_commits, 200);
    assert_eq!(c.diff_char_limit, 8000);
}

#[test]
fn error_messages() {
    assert_eq!(AppError::NotAGitRepo.message(), "Not inside a git repository");
    assert_eq!(AppError::GitNotFound.message(), "git command not found — is git installed?");
    assert_eq!(AppError::GitCommandFailed("x".into()).message(), "git command failed: x");
    assert_eq!(AppError::MalformedOutput("y".into()).message(), "malformed git output: y");
    assert_eq!(AppError::Terminal("z".into()).message(), "terminal error: z");
    let io = std::io::Error::new(std::io::ErrorKind::Other, "disk");
    assert_eq!(AppError::Io(io).message(), "IO error: disk");
    let nf = std::io::Error::new(std::io::ErrorKind::NotFound, "x");
    assert!(matches!(AppError::from_io(nf, true), AppError::GitNotFound));
    let other = std::io::Error::new(std::io::ErrorKind::Other, "x");
    assert!(matches!(AppError::from_io(other, false), AppError::Io(_)));
}

#[test]
fn civil_next_day_steps() {
    assert_eq!(civil_from_days(58), (1970, 2, 28));
    assert_eq!(civil_from_days(59), (1970, 3, 1));
    assert_eq!(civil_from_days(10956), (1999, 12, 31));
    assert_eq!(civil_from_days(10957), (2000, 1, 1));
    assert_eq!(civil_from_days(11016), (2000, 2, 29));
    assert_eq!(civil_from_days(11017), (2000, 3, 1));
    let mut prev = civil_from_days(-800);
    for z in -799i64..800 {
        let (y, m, d) = civil_from_days(z);
        let (py, pm, pd) = prev;
        let same_month = y == py && m == pm && d == pd + 1;
        let next_month = y == py && m == pm + 1 && d == 1;
        let next_year = y == py + 1 && m == 1 && pm == 12 && d == 1;
        assert!(same_month || next_month || next_year, "day {}", z);
        prev = (y, m, d);
    }
}

#[test]
fn io_errors_by_kind() {
    let nf = std::io::Error::new(std::io::ErrorKind::NotFound, "no git");
    assert!(matches!(AppError::from_io_error(nf), AppError::GitNotFound));
    let denied = std::io::Error::new(std::io::ErrorKind::PermissionDenied, "denied");
    match AppError::from_io_error(denied) {
        AppError::Io(e) => assert_eq!(e.kind(), std::io::ErrorKind::PermissionDenied),
        _ => panic!("expected Io"),
    }
}
