//! The records of git's output and their parsers: `git log --graph` with
//! NUL-separated fields, `git show --raw --numstat -z`, and
//! `git blame --line-porcelain`.
use vstd::prelude::*;
use crate::text::{
    split_on, strip_cr, text_lines, views_of, chars_of, string_of, split_chars, lines_of, decimal,
    u64_decimal, terminated, lemma_split_on_nonempty, lemma_split_on_prefix,
    lemma_split_on_without_sep, lemma_split_on_with_sep, lemma_split_terminated, lemma_single_line, lemma_lines_append,
    copy_chars, occurs_in, contains_chars, is_white, white, is_hex, is_digit, all_hex, all_digits,
};
use crate::num::{
    parse_u32, parse_usize, parse_i64, i64_text, trim_end_len, trimmed, lemma_trim_end_len_bound,
    lemma_parse_zero, lemma_decimal_digits, lemma_parse_decimal_usize, lemma_parse_i64_text,
    lemma_trimmed_plain, trim_end_index, trim_range, to_u32, to_usize, to_i64,
};
use crate::error::AppError;

verus! {

/// One commit of the log, with the graph drawing that precedes it.
#[derive(Clone, Debug)]
pub struct Commit {
    pub hash: String,
    pub short_hash: String,
    pub author: String,
    pub author_email: String,
    pub date: String,
    pub subject: String,
    pub graph: String,
}

/// The characters of each field of a `Commit`.
pub struct CommitView {
    pub hash: Seq<char>,
    pub short_hash: Seq<char>,
    pub author: Seq<char>,
    pub author_email: Seq<char>,
    pub date: Seq<char>,
    pub subject: Seq<char>,
    pub graph: Seq<char>,
}

impl View for Commit {
    type V = CommitView;

    open spec fn view(&self) -> CommitView {
        CommitView {
            hash: self.hash@,
            short_hash: self.short_hash@,
            author: self.author@,
            author_email: self.author_email@,
            date: self.date@,
            subject: self.subject@,
            graph: self.graph@,
        }
    }
}

/// A file that a commit touched, with its status letter(s) and line counts
/// (`None` for binary files).
#[derive(Clone, Debug, PartialEq)]
pub struct ChangedFile {
    pub path: String,
    pub status: String,
    pub additions: Option<u32>,
    pub deletions: Option<u32>,
}

/// The characters and counts of a `ChangedFile`.
pub struct ChangedFileView {
    pub path: Seq<char>,
    pub status: Seq<char>,
    pub additions: Option<u32>,
    pub deletions: Option<u32>,
}

impl View for ChangedFile {
    type V = ChangedFileView;

    open spec fn view(&self) -> ChangedFileView {
        ChangedFileView {
            path: self.path@,
            status: self.status@,
            additions: self.additions,
            deletions: self.deletions,
        }
    }
}

/// One line of a blamed file.
#[derive(Clone, Debug, PartialEq)]
pub struct BlameLine {
    pub line_no: usize,
    pub commit_hash: String,
    pub short_hash: String,
    pub author: String,
    pub author_time: i64,
    pub content: String,
}

/// The characters and numbers of a `BlameLine`.
pub struct BlameLineView {
    pub line_no: usize,
    pub commit_hash: Seq<char>,
    pub short_hash: Seq<char>,
    pub author: Seq<char>,
    pub author_time: i64,
    pub content: Seq<char>,
}

impl View for BlameLine {
    type V = BlameLineView;

    open spec fn view(&self) -> BlameLineView {
        BlameLineView {
            line_no: self.line_no,
            commit_hash: self.commit_hash@,
            short_hash: self.short_hash@,
            author: self.author@,
            author_time: self.author_time,
            content: self.content@,
        }
    }
}

// ---------------------------------------------------------------------
// `git log --graph` with NUL-separated fields
// ---------------------------------------------------------------------

/// A character of git's graph drawing: `* | / \ - _ .`, space, or a
/// Unicode box-drawing character.
pub open spec fn is_graph_char(c: char) -> bool {
    c == '*' || c == '|' || c == '/' || c == '\\' || c == '-' || c == '_' || c == '.' || c == ' '
        || ('\u{2500}' <= c && c <= '\u{257F}')
}

/// Whether the graph prefix goes on through `c`: a hex digit starts the
/// hash, and anything that is neither graph nor space ends the graph.
pub open spec fn continues_graph(c: char) -> bool {
    !is_hex(c) && (is_graph_char(c) || c == ' ')
}

/// The length of the graph drawing at the start of a log line.
pub open spec fn graph_len(line: Seq<char>) -> nat
    decreases line.len(),
{
    if line.len() == 0 || !continues_graph(line[0]) {
        0
    } else {
        1 + graph_len(line.drop_first())
    }
}

/// The text of `{:?}` applied to a list of strings: brackets, and each
/// string quoted and escaped, separated by `, `.
pub uninterp spec fn debug_list_text(items: Seq<Seq<char>>) -> Seq<char>;

/// Formats a list of strings with `{:?}`.
///
/// Calls std's `Debug` for `Vec<String>`; the contract claims only that the
/// text depends on the strings alone.
#[verifier::external_body]
fn debug_list(items: &Vec<String>) -> (r: String)
    ensures
        r@ == debug_list_text(items@.map_values(|s: String| s@)),
{
    format!("{:?}", items)
}

/// The detail of the error for a record with too few fields.
pub open spec fn malformed_detail(fields: Seq<Seq<char>>) -> Seq<char> {
    "expected 6 NUL-separated fields, got "@ + decimal(fields.len()) + ": "@ + debug_list_text(
        fields,
    )
}

/// What one line of `git log --graph --pretty=format:%H%x00%h%x00%an%x00%ae%x00%ad%x00%s%x00`
/// gives: nothing for a line without a NUL (graph only), a commit when the
/// text after the graph has at least six NUL-separated fields, and the
/// detail of the error otherwise.
pub open spec fn log_line(line: Seq<char>) -> Option<Result<CommitView, Seq<char>>> {
    if !line.contains('\0') {
        None
    } else {
        let g = graph_len(line);
        let f = split_on(line.skip(g as int), '\0');
        if f.len() < 6 {
            Some(Err(malformed_detail(f)))
        } else {
            Some(
                Ok(
                    CommitView {
                        hash: f[0],
                        short_hash: f[1],
                        author: f[2],
                        author_email: f[3],
                        date: f[4],
                        subject: f[5],
                        graph: line.take(g as int),
                    },
                ),
            )
        }
    }
}

/// The commits of a run of log lines, or the detail of the first
/// malformed line.
pub open spec fn parse_log_lines(lines: Seq<Seq<char>>) -> Result<Seq<CommitView>, Seq<char>>
    decreases lines.len(),
{
    if lines.len() == 0 {
        Ok(Seq::empty())
    } else {
        match parse_log_lines(lines.drop_last()) {
            Err(e) => Err(e),
            Ok(cs) => match log_line(lines.last()) {
                None => Ok(cs),
                Some(Ok(c)) => Ok(cs.push(c)),
                Some(Err(e)) => Err(e),
            },
        }
    }
}

/// The commits of `git log` output read line by line (`str::lines`).
pub open spec fn log_of(raw: Seq<char>) -> Result<Seq<CommitView>, Seq<char>> {
    parse_log_lines(text_lines(raw))
}

/// Views of commits.
pub open spec fn commit_views(v: Seq<Commit>) -> Seq<CommitView> {
    v.map_values(|c: Commit| c@)
}

/// Executable `continues_graph`.
fn graph_continues(c: char) -> (r: bool)
    ensures
        r == continues_graph(c),
{
    let hex = ('0' <= c && c <= '9') || ('a' <= c && c <= 'f') || ('A' <= c && c <= 'F');
    let graph = c == '*' || c == '|' || c == '/' || c == '\\' || c == '-' || c == '_' || c == '.'
        || c == ' ' || ('\u{2500}' <= c && c <= '\u{257F}');
    !hex && (graph || c == ' ')
}

/// The length of the graph drawing at the start of `line`.
fn find_graph_end(line: &[char]) -> (g: usize)
    ensures
        g as nat == graph_len(line@),
        g <= line@.len(),
{
    let mut g: usize = 0;
    assert(line@.skip(0) =~= line@);
    while g < line.len() && graph_continues(line[g])
        invariant
            0 <= g <= line@.len(),
            graph_len(line@) == g + graph_len(line@.skip(g as int)),
        decreases line@.len() - g,
    {
        assert(line@.skip(g as int).drop_first() =~= line@.skip(g + 1));
        assert(line@.skip(g as int)[0] == line@[g as int]);
        g = g + 1;
    }
    assert(graph_len(line@.skip(g as int)) == 0) by {
        if g < line@.len() {
            assert(line@.skip(g as int)[0] == line@[g as int]);
        }
    }
    g
}

/// Whether a NUL occurs in `line`.
fn has_nul(line: &[char]) -> (r: bool)
    ensures
        r == line@.contains('\0'),
{
    let mut i: usize = 0;
    while i < line.len()
        invariant
            0 <= i <= line@.len(),
            forall|j: int| 0 <= j < i ==> line@[j] != '\0',
        decreases line@.len() - i,
    {
        if line[i] == '\0' {
            assert(line@[i as int] == '\0');
            return true;
        }
        i = i + 1;
    }
    false
}

/// The error detail for a record with `count` fields, given the `{:?}`
/// listing of the fields.
pub fn malformed_message(count: usize, listing: &str) -> (r: String)
    ensures
        r@ == "expected 6 NUL-separated fields, got "@ + decimal(count as nat) + ": "@ + listing@,
{
    let mut r = "expected 6 NUL-separated fields, got ".to_owned();
    let digits = u64_decimal(count as u64);
    let count_text = string_of(digits.as_slice());
    r.append(count_text.as_str());
    r.append(": ");
    r.append(listing);
    r
}

/// The error detail for a record with too few fields.
fn malformed_text(fields: &Vec<Vec<char>>) -> (r: String)
    ensures
        r@ == malformed_detail(views_of(fields@)),
{
    let mut items: Vec<String> = Vec::new();
    let mut i: usize = 0;
    while i < fields.len()
        invariant
            0 <= i <= fields@.len(),
            items@.len() == i,
            forall|j: int| 0 <= j < i ==> #[trigger] items@[j]@ == fields@[j]@,
        decreases fields@.len() - i,
    {
        items.push(string_of(fields[i].as_slice()));
        i = i + 1;
    }
    assert(items@.map_values(|s: String| s@) =~= views_of(fields@));
    let list = debug_list(&items);
    malformed_message(fields.len(), list.as_str())
}

/// Parses `git log --graph` output written with the format
/// `%H%x00%h%x00%an%x00%ae%x00%ad%x00%s%x00`: lines without a NUL are
/// graph-only and skipped; on the others the graph prefix is split off and
/// the rest must hold six NUL-separated fields (hash, short hash, author,
/// email, date, subject), or the whole parse fails with `MalformedOutput`.
pub fn parse_git_log(raw: &str) -> (r: Result<Vec<Commit>, AppError>)
    ensures
        match r {
            Ok(v) => log_of(raw@) == Ok::<Seq<CommitView>, Seq<char>>(commit_views(v@)),
            Err(e) => exists|m: String|
                e == AppError::MalformedOutput(m) && log_of(raw@) == Err::<Seq<CommitView>, Seq<char>>(
                    m@,
                ),
        },
{
    let chars = chars_of(raw);
    let lines = lines_of(chars.as_slice());
    let ghost ls = views_of(lines@);
    let mut commits: Vec<Commit> = Vec::new();
    let mut i: usize = 0;
    assert(ls.take(0) =~= Seq::<Seq<char>>::empty());
    assert(commit_views(commits@) =~= Seq::<CommitView>::empty());
    while i < lines.len()
        invariant
            ls == views_of(lines@),
            ls == text_lines(raw@),
            0 <= i <= lines@.len(),
            parse_log_lines(ls.take(i as int)) == Ok::<Seq<CommitView>, Seq<char>>(
                commit_views(commits@),
            ),
        decreases lines@.len() - i,
    {
        assert(ls.take(i + 1).drop_last() =~= ls.take(i as int));
        assert(ls.take(i + 1).last() == ls[i as int]);
        let line = lines[i].as_slice();
        assert(line@ == ls[i as int]);
        if has_nul(line) {
            let g = find_graph_end(line);
            let data = &line[g..line.len()];
            assert(data@ =~= line@.skip(g as int));
            let fields = split_chars(data, '\0');
            if fields.len() < 6 {
                let m = malformed_text(&fields);
                proof {
                    lemma_log_error_persists(ls, i as int + 1);
                    assert(ls.take(ls.len() as int) =~= ls);
                }
                return Err(AppError::MalformedOutput(m));
            }
            let c = Commit {
                hash: string_of(fields[0].as_slice()),
                short_hash: string_of(fields[1].as_slice()),
                author: string_of(fields[2].as_slice()),
                author_email: string_of(fields[3].as_slice()),
                date: string_of(fields[4].as_slice()),
                subject: string_of(fields[5].as_slice()),
                graph: string_of(&line[0..g]),
            };
            let ghost before = commit_views(commits@);
            assert(line@.take(g as int) =~= line@.subrange(0, g as int));
            assert(log_line(ls[i as int]) == Some(Ok::<CommitView, Seq<char>>(c@)));
            commits.push(c);
            assert(commit_views(commits@) =~= before.push(c@));
        }
        i = i + 1;
    }
    assert(ls.take(lines@.len() as int) =~= ls);
    Ok(commits)
}

/// Once a prefix of the lines fails, the whole run fails the same way.
proof fn lemma_log_error_persists(lines: Seq<Seq<char>>, k: int)
    requires
        0 <= k <= lines.len(),
        parse_log_lines(lines.take(k)) is Err,
    ensures
        parse_log_lines(lines) == parse_log_lines(lines.take(k)),
    decreases lines.len() - k,
{
    if k < lines.len() {
        assert(lines.take(k + 1).drop_last() =~= lines.take(k));
        lemma_log_error_persists(lines, k + 1);
    } else {
        assert(lines.take(k) =~= lines);
    }
}

/// The line that `git log` writes for a commit in the format the viewer
/// asks for: the graph, then the six fields, each followed by a NUL.
pub open spec fn log_record(c: CommitView) -> Seq<char> {
    c.graph + c.hash + seq!['\0'] + c.short_hash + seq!['\0'] + c.author + seq!['\0']
        + c.author_email + seq!['\0'] + c.date + seq!['\0'] + c.subject + seq!['\0']
}

/// Neither NUL nor newline occurs in `s`.
pub open spec fn plain_field(s: Seq<char>) -> bool {
    !s.contains('\0') && !s.contains('\n')
}

/// A commit whose record reads back as itself: plain fields, a graph of
/// graph characters, and a hash that does not look like more graph.
pub open spec fn loggable(c: CommitView) -> bool {
    &&& forall|i: int| 0 <= i < c.graph.len() ==> #[trigger] continues_graph(c.graph[i])
    &&& c.hash.len() > 0 ==> !continues_graph(c.hash[0])
    &&& plain_field(c.hash)
    &&& plain_field(c.short_hash)
    &&& plain_field(c.author)
    &&& plain_field(c.author_email)
    &&& plain_field(c.date)
    &&& plain_field(c.subject)
}

/// A run of graph characters is all graph.
proof fn lemma_graph_len_prefix(g: Seq<char>, rest: Seq<char>)
    requires
        forall|i: int| 0 <= i < g.len() ==> #[trigger] continues_graph(g[i]),
    ensures
        graph_len(g + rest) == g.len() + graph_len(rest),
    decreases g.len(),
{
    if g.len() > 0 {
        assert((g + rest).drop_first() =~= g.drop_first() + rest);
        assert((g + rest)[0] == g[0]);
        assert forall|i: int| 0 <= i < g.drop_first().len() implies #[trigger] continues_graph(
            g.drop_first()[i],
        ) by {
            assert(g.drop_first()[i] == g[i + 1]);
        }
        lemma_graph_len_prefix(g.drop_first(), rest);
    } else {
        assert(g + rest =~= rest);
    }
}

/// A commit's log record holds no newline.
#[verifier::rlimit(50)]
proof fn lemma_record_single_line(c: CommitView)
    requires
        loggable(c),
    ensures
        !log_record(c).contains('\n'),
{
    let nul = seq!['\0'];
    let data = c.hash + nul + c.short_hash + nul + c.author + nul + c.author_email + nul + c.date
        + nul + c.subject + nul;
    let r = log_record(c);
    assert(r =~= c.graph + data);
    assert(!r.contains('\n')) by {
        if r.contains('\n') {
            let i = choose|i: int| 0 <= i < r.len() && r[i] == '\n';
            if i < c.graph.len() {
                assert(continues_graph(c.graph[i]));
            } else {
                let j = i - c.graph.len();
                assert(data[j] == '\n');
                let k0 = c.hash.len() as int;
                let k1 = k0 + 1 + c.short_hash.len();
                let k2 = k1 + 1 + c.author.len();
                let k3 = k2 + 1 + c.author_email.len();
                let k4 = k3 + 1 + c.date.len();
                let k5 = k4 + 1 + c.subject.len();
                if j < k0 {
                    assert(c.hash[j] == '\n');
                } else if j == k0 || j == k1 || j == k2 || j == k3 || j == k4 || j == k5 {
                } else if j < k1 {
                    assert(c.short_hash[j - k0 - 1] == '\n');
                } else if j < k2 {
                    assert(c.author[j - k1 - 1] == '\n');
                } else if j < k3 {
                    assert(c.author_email[j - k2 - 1] == '\n');
                } else if j < k4 {
                    assert(c.date[j - k3 - 1] == '\n');
                } else {
                    assert(c.subject[j - k4 - 1] == '\n');
                }
            }
        }
    }
}

/// A commit's log record is read as that commit.
#[verifier::rlimit(50)]
proof fn lemma_record_line(c: CommitView)
    requires
        loggable(c),
    ensures
        log_line(log_record(c)) == Some(Ok::<CommitView, Seq<char>>(c)),
        log_record(c).len() > 0,
        log_record(c).last() == '\0',
        !log_record(c).contains('\n'),
{
    let nul = seq!['\0'];
    let data = c.hash + nul + c.short_hash + nul + c.author + nul + c.author_email + nul + c.date
        + nul + c.subject + nul;
    let r = log_record(c);
    assert(r =~= c.graph + data);
    lemma_record_single_line(c);
    // The graph ends where the hash starts.
    lemma_graph_len_prefix(c.graph, data);
    assert(graph_len(data) == 0) by {
        if c.hash.len() > 0 {
            assert(data[0] == c.hash[0]);
        } else {
            assert(data[0] == '\0');
        }
    }
    assert(r.skip(c.graph.len() as int) =~= data);
    assert(r.take(c.graph.len() as int) =~= c.graph);
    assert(r.contains('\0')) by {
        assert(r[(c.graph.len() + c.hash.len()) as int] == '\0');
    }
    // The fields.
    let e = Seq::<char>::empty();
    let t5 = c.subject + nul + e;
    let t4 = c.date + nul + t5;
    let t3 = c.author_email + nul + t4;
    let t2 = c.author + nul + t3;
    let t1 = c.short_hash + nul + t2;
    assert(data =~= c.hash + nul + t1);
    lemma_split_on_prefix(c.subject, e, '\0');
    lemma_split_on_prefix(c.date, t5, '\0');
    lemma_split_on_prefix(c.author_email, t4, '\0');
    lemma_split_on_prefix(c.author, t3, '\0');
    lemma_split_on_prefix(c.short_hash, t2, '\0');
    lemma_split_on_prefix(c.hash, t1, '\0');
    assert(split_on(e, '\0') == seq![e]);
    let f = split_on(data, '\0');
    assert(f =~= seq![c.hash, c.short_hash, c.author, c.author_email, c.date, c.subject, e]);
    assert(log_line(r) == Some(Ok::<CommitView, Seq<char>>(c)));
    assert(r.last() == '\0');
}

/// Reading a commit's log record gives back the commit: `parse_git_log`
/// inverts what `git log` writes for one commit.
pub proof fn law_log_record_round_trip(c: CommitView)
    requires
        loggable(c),
    ensures
        log_of(log_record(c)) == Ok::<Seq<CommitView>, Seq<char>>(seq![c]),
{
    lemma_record_line(c);
    let r = log_record(c);
    lemma_single_line(r);
    let ls = seq![r];
    assert(ls.last() == r);
    assert(ls.drop_last() =~= Seq::<Seq<char>>::empty());
    assert(parse_log_lines(ls.drop_last()) == Ok::<Seq<CommitView>, Seq<char>>(Seq::empty()));
    assert(Seq::<CommitView>::empty().push(c) =~= seq![c]);
    assert(parse_log_lines(ls) == Ok::<Seq<CommitView>, Seq<char>>(seq![c]));
}

/// What `git log` writes for a run of commits: each commit's record on a
/// line of its own.
pub open spec fn log_text(cs: Seq<CommitView>) -> Seq<char>
    decreases cs.len(),
{
    if cs.len() == 0 {
        Seq::empty()
    } else {
        log_text(cs.drop_last()) + log_record(cs.last()) + seq!['\n']
    }
}

/// Reading the log of a run of commits gives back the commits, in order.
pub proof fn law_log_text_round_trip(cs: Seq<CommitView>)
    requires
        forall|i: int| 0 <= i < cs.len() ==> #[trigger] loggable(cs[i]),
    ensures
        log_of(log_text(cs)) == Ok::<Seq<CommitView>, Seq<char>>(cs),
    decreases cs.len(),
{
    if cs.len() == 0 {
        assert(split_on(Seq::<char>::empty(), '\n') == seq![Seq::<char>::empty()]);
        assert(text_lines(Seq::<char>::empty()) =~= Seq::<Seq<char>>::empty());
        assert(cs =~= Seq::<CommitView>::empty());
    } else {
        let prev = cs.drop_last();
        assert forall|i: int| 0 <= i < prev.len() implies #[trigger] loggable(prev[i]) by {
            assert(prev[i] == cs[i]);
        }
        law_log_text_round_trip(prev);
        let c = cs.last();
        assert(loggable(cs[cs.len() - 1]));
        lemma_record_line(c);
        let a = log_text(prev);
        let r = log_record(c);
        assert(a.len() == 0 || a.last() == '\n') by {
            if prev.len() > 0 {
                let x = log_text(prev.drop_last()) + log_record(prev.last()) + seq!['\n'];
                assert(x.last() == '\n');
            }
        }
        lemma_lines_append(a, r);
        let ls = text_lines(a).push(r);
        assert(log_text(cs) == a + r + seq!['\n']);
        assert(text_lines(log_text(cs)) == ls);
        assert(ls.drop_last() =~= text_lines(a));
        assert(ls.last() == r);
        assert(parse_log_lines(ls.drop_last()) == Ok::<Seq<CommitView>, Seq<char>>(prev));
        assert(parse_log_lines(ls) == Ok::<Seq<CommitView>, Seq<char>>(prev.push(c)));
        assert(cs =~= prev.push(c));
    }
}

// ---------------------------------------------------------------------
// `git show --raw --numstat -z`
// ---------------------------------------------------------------------

/// The NUL-separated tokens of the output, without the empty token that a
/// final NUL leaves.
pub open spec fn nul_tokens(raw: Seq<char>) -> Seq<Seq<char>> {
    let t = split_on(raw, '\0');
    if t.last().len() == 0 {
        t.drop_last()
    } else {
        t
    }
}

/// The token at `i`, or the empty text past the end.
pub open spec fn token_at(t: Seq<Seq<char>>, i: int) -> Seq<char> {
    if 0 <= i < t.len() {
        t[i]
    } else {
        Seq::<char>::empty()
    }
}

/// A `--raw` record starts with `:`.
pub open spec fn is_meta(tok: Seq<char>) -> bool {
    tok.len() > 0 && tok[0] == ':'
}

/// Renames and copies (`R…`, `C…`) carry an old and a new path.
pub open spec fn is_rename_or_copy(status: Seq<char>) -> bool {
    status.len() > 0 && (status[0] == 'R' || status[0] == 'C')
}

/// Length of `s` without the run of non-whitespace at its end.
pub open spec fn word_start(s: Seq<char>) -> nat
    decreases s.len(),
{
    if s.len() == 0 || is_white(s.last()) {
        s.len()
    } else {
        word_start(s.drop_last())
    }
}

/// The last whitespace-separated word of `s`, or the empty text
/// (`split_whitespace().last().unwrap_or("")`).
pub open spec fn last_word(s: Seq<char>) -> Seq<char> {
    let t = s.take(trim_end_len(s) as int);
    t.skip(word_start(t) as int)
}

/// The `--raw` records from token `pos` on, as (status, path) pairs, and
/// the position of the first token that is not part of them.
pub open spec fn raw_records(t: Seq<Seq<char>>, pos: int) -> (Seq<(Seq<char>, Seq<char>)>, int)
    decreases t.len() - pos,
{
    if pos < 0 || pos >= t.len() || !is_meta(t[pos]) {
        (Seq::empty(), pos)
    } else {
        let status = last_word(t[pos]);
        let k: int = if is_rename_or_copy(status) { 2 } else { 1 };
        let path = token_at(t, pos + k);
        let next = if pos + 1 + k <= t.len() { pos + 1 + k } else { t.len() as int };
        let rest = raw_records(t, next);
        (seq![(status, path)] + rest.0, rest.1)
    }
}

/// Whether a `--numstat` token has no path after its two counts, which
/// is how a rename or copy record announces its two paths as the next
/// tokens.
pub open spec fn numstat_without_path(tok: Seq<char>) -> bool {
    let pieces = split_on(tok, '\t');
    pieces.len() < 3 || (pieces.len() == 3 && pieces[2].len() == 0)
}

/// The line counts of one `--numstat` token.
pub open spec fn numstat_counts(tok: Seq<char>) -> (Option<u32>, Option<u32>) {
    let pieces = split_on(tok, '\t');
    let del = if pieces.len() >= 2 { pieces[1] } else { seq!['0'] };
    (parse_u32(pieces[0]), parse_u32(del))
}

/// Up to `want` `--numstat` records from token `pos` on.
pub open spec fn stat_records(t: Seq<Seq<char>>, pos: int, want: nat) -> Seq<(Option<u32>, Option<u32>)>
    decreases want,
{
    if want == 0 || pos < 0 || pos >= t.len() {
        Seq::empty()
    } else {
        let used: int = if numstat_without_path(t[pos]) { 3 } else { 1 };
        let next = if pos + used <= t.len() { pos + used } else { t.len() as int };
        seq![numstat_counts(t[pos])] + stat_records(t, next, (want - 1) as nat)
    }
}

/// The changed files that `git show --raw --numstat -z` reports: the
/// `--raw` records, paired in order with the `--numstat` records that
/// follow them, as many as both have.
pub open spec fn changed_files_of(raw: Seq<char>) -> Seq<ChangedFileView> {
    let t = nul_tokens(raw);
    let recs = raw_records(t, 0);
    let stats = stat_records(t, recs.1, recs.0.len());
    let n = if recs.0.len() <= stats.len() { recs.0.len() } else { stats.len() };
    Seq::new(
        n,
        |i: int|
            ChangedFileView {
                path: recs.0[i].1,
                status: recs.0[i].0,
                additions: stats[i].0,
                deletions: stats[i].1,
            },
    )
}

/// Views of changed files.
pub open spec fn changed_file_views(v: Seq<ChangedFile>) -> Seq<ChangedFileView> {
    v.map_values(|f: ChangedFile| f@)
}

/// A changed file as `git show --raw --numstat -z` reports it: the file,
/// the text between the `:` and the status in its `--raw` record (modes
/// and blob names), and the old path of a rename or copy.
pub struct FileChange {
    pub file: ChangedFileView,
    pub meta: Seq<char>,
    pub old_path: Seq<char>,
}

/// The `--raw` tokens of a change: the meta token, then the old path of a
/// rename or copy, then the path.
pub open spec fn raw_tokens(c: FileChange) -> Seq<Seq<char>> {
    let m = seq![':'] + c.meta + seq![' '] + c.file.status;
    if is_rename_or_copy(c.file.status) {
        seq![m, c.old_path, c.file.path]
    } else {
        seq![m, c.file.path]
    }
}

/// How `--numstat` writes a line count: the number, or `-` for a binary
/// file.
pub open spec fn count_text(n: Option<u32>) -> Seq<char> {
    match n {
        Some(v) => decimal(v as nat),
        None => seq!['-'],
    }
}

/// The `--numstat` tokens of a change: the counts and the path, or for a
/// rename or copy the counts with an empty path, then the two paths.
pub open spec fn numstat_tokens(c: FileChange) -> Seq<Seq<char>> {
    let counts = count_text(c.file.additions) + seq!['\t'] + count_text(c.file.deletions) + seq![
        '\t',
    ];
    if is_rename_or_copy(c.file.status) {
        seq![counts, c.old_path, c.file.path]
    } else {
        seq![counts + c.file.path]
    }
}

/// The `--raw` tokens of all changes, in order.
pub open spec fn all_raw_tokens(cs: Seq<FileChange>) -> Seq<Seq<char>>
    decreases cs.len(),
{
    if cs.len() == 0 {
        Seq::empty()
    } else {
        raw_tokens(cs[0]) + all_raw_tokens(cs.drop_first())
    }
}

/// The `--numstat` tokens of all changes, in order.
pub open spec fn all_numstat_tokens(cs: Seq<FileChange>) -> Seq<Seq<char>>
    decreases cs.len(),
{
    if cs.len() == 0 {
        Seq::empty()
    } else {
        numstat_tokens(cs[0]) + all_numstat_tokens(cs.drop_first())
    }
}

/// What `git show --raw --numstat -z` writes for the changes: all `--raw`
/// records, then all `--numstat` records, every token ended by a NUL.
pub open spec fn show_output(cs: Seq<FileChange>) -> Seq<char> {
    terminated(all_raw_tokens(cs) + all_numstat_tokens(cs), '\0')
}

/// Text without whitespace.
pub open spec fn no_white(s: Seq<char>) -> bool {
    forall|i: int| 0 <= i < s.len() ==> !is_white(#[trigger] s[i])
}

/// A change that its output can carry: a status word, a nonempty path,
/// and no NUL anywhere.
pub open spec fn change_ready(c: FileChange) -> bool {
    &&& c.file.status.len() > 0
    &&& no_white(c.file.status)
    &&& !c.file.status.contains('\0')
    &&& c.file.path.len() > 0
    &&& !c.file.path.contains('\0')
    &&& !c.meta.contains('\0')
    &&& !c.old_path.contains('\0')
}

/// The status word is the last word of the meta token.
proof fn lemma_last_word_status(meta: Seq<char>, status: Seq<char>)
    requires
        status.len() > 0,
        no_white(status),
    ensures
        last_word(seq![':'] + meta + seq![' '] + status) == status,
{
    let p = seq![':'] + meta + seq![' '];
    let s = p + status;
    assert(!is_white(s.last())) by {
        assert(s.last() == status[status.len() - 1]);
    }
    assert(s.take(trim_end_len(s) as int) =~= s);
    lemma_word_start(p, status);
    assert(s.skip(p.len() as int) =~= status);
}

/// Dropping a word after whitespace leaves the whitespace.
proof fn lemma_word_start(p: Seq<char>, w: Seq<char>)
    requires
        p.len() > 0,
        is_white(p.last()),
        no_white(w),
    ensures
        word_start(p + w) == p.len(),
    decreases w.len(),
{
    if w.len() == 0 {
        assert(p + w =~= p);
    } else {
        let w0 = w.drop_last();
        assert(no_white(w0)) by {
            assert forall|i: int| 0 <= i < w0.len() implies !is_white(#[trigger] w0[i]) by {
                assert(w0[i] == w[i]);
            }
        }
        lemma_word_start(p, w0);
        assert((p + w).drop_last() =~= p + w0);
        assert((p + w).last() == w[w.len() - 1]);
    }
}

/// `raw_records` reads the same records after a prefix, shifted.
proof fn lemma_raw_records_shift(g: Seq<Seq<char>>, t: Seq<Seq<char>>, p: int)
    requires
        0 <= p,
    ensures
        raw_records(g + t, g.len() + p).0 == raw_records(t, p).0,
        raw_records(g + t, g.len() + p).1 == raw_records(t, p).1 + g.len(),
    decreases t.len() - p,
{
    let gt = g + t;
    let q = g.len() + p;
    if p < t.len() {
        assert(gt[q] == t[p]);
        if is_meta(t[p]) {
            let status = last_word(t[p]);
            let k: int = if is_rename_or_copy(status) { 2 } else { 1 };
            assert(token_at(gt, q + k) == token_at(t, p + k)) by {
                if p + k < t.len() {
                    assert(gt[q + k] == t[p + k]);
                }
            }
            let next = if p + 1 + k <= t.len() { p + 1 + k } else { t.len() as int };
            lemma_raw_records_shift(g, t, next);
        }
    }
}

/// `stat_records` reads the same records after a prefix.
proof fn lemma_stat_records_shift(g: Seq<Seq<char>>, t: Seq<Seq<char>>, p: int, want: nat)
    requires
        0 <= p,
    ensures
        stat_records(g + t, g.len() + p, want) == stat_records(t, p, want),
    decreases want,
{
    let gt = g + t;
    let q = g.len() + p;
    if want > 0 && p < t.len() {
        assert(gt[q] == t[p]);
        let used: int = if numstat_without_path(t[p]) { 3 } else { 1 };
        let next = if p + used <= t.len() { p + used } else { t.len() as int };
        lemma_stat_records_shift(g, t, next, (want - 1) as nat);
    }
}

/// The `--raw` records of the changes are read back, up to the first
/// `--numstat` token.
proof fn lemma_raw_phase(cs: Seq<FileChange>, rest: Seq<Seq<char>>)
    requires
        forall|i: int| 0 <= i < cs.len() ==> #[trigger] change_ready(cs[i]),
        rest.len() == 0 || !is_meta(rest[0]),
    ensures
        raw_records(all_raw_tokens(cs) + rest, 0).0 == Seq::new(
            cs.len(),
            |i: int| (cs[i].file.status, cs[i].file.path),
        ),
        raw_records(all_raw_tokens(cs) + rest, 0).1 == all_raw_tokens(cs).len(),
    decreases cs.len(),
{
    if cs.len() == 0 {
        assert(all_raw_tokens(cs) + rest =~= rest);
        assert(Seq::new(cs.len(), |i: int| (cs[i].file.status, cs[i].file.path)) =~= Seq::<
            (Seq<char>, Seq<char>),
        >::empty());
    } else {
        let c = cs[0];
        let tail = cs.drop_first();
        assert forall|i: int| 0 <= i < tail.len() implies #[trigger] change_ready(tail[i]) by {
            assert(tail[i] == cs[i + 1]);
        }
        assert(change_ready(cs[0]));
        lemma_raw_phase(tail, rest);
        let g = raw_tokens(c);
        let t2 = all_raw_tokens(tail) + rest;
        let t = all_raw_tokens(cs) + rest;
        assert(t =~= g + t2);
        lemma_last_word_status(c.meta, c.file.status);
        assert(t[0] == g[0]);
        assert(is_meta(t[0]));
        assert(last_word(t[0]) == c.file.status);
        let k: int = if is_rename_or_copy(c.file.status) { 2 } else { 1 };
        assert(g.len() == k + 1);
        assert(token_at(t, k) == c.file.path) by {
            assert(t[k] == g[k]);
        }
        lemma_raw_records_shift(g, t2, 0);
        assert(g.len() + 0 == 1 + k);
        let recs = Seq::new(cs.len(), |i: int| (cs[i].file.status, cs[i].file.path));
        let trecs = Seq::new(tail.len(), |i: int| (tail[i].file.status, tail[i].file.path));
        assert(recs =~= seq![(c.file.status, c.file.path)] + trecs);
    }
}

/// The `--numstat` records of the changes are read back.
proof fn lemma_stat_phase(cs: Seq<FileChange>)
    requires
        forall|i: int| 0 <= i < cs.len() ==> #[trigger] change_ready(cs[i]),
    ensures
        stat_records(all_numstat_tokens(cs), 0, cs.len()) == Seq::new(
            cs.len(),
            |i: int| (cs[i].file.additions, cs[i].file.deletions),
        ),
    decreases cs.len(),
{
    let want_all = Seq::new(cs.len(), |i: int| (cs[i].file.additions, cs[i].file.deletions));
    if cs.len() == 0 {
        assert(want_all =~= Seq::<(Option<u32>, Option<u32>)>::empty());
    } else {
        let c = cs[0];
        let tail = cs.drop_first();
        assert forall|i: int| 0 <= i < tail.len() implies #[trigger] change_ready(tail[i]) by {
            assert(tail[i] == cs[i + 1]);
        }
        assert(change_ready(cs[0]));
        lemma_stat_phase(tail);
        let g = numstat_tokens(c);
        let t2 = all_numstat_tokens(tail);
        let t = all_numstat_tokens(cs);
        assert(t =~= g + t2);
        assert(t[0] == g[0]);
        lemma_numstat_token(c);
        lemma_stat_records_shift(g, t2, 0, tail.len());
        let trest = Seq::new(tail.len(), |i: int| (tail[i].file.additions, tail[i].file.deletions));
        assert(want_all =~= seq![(c.file.additions, c.file.deletions)] + trest);
    }
}

/// A count is read back from its text, which holds no tab.
proof fn lemma_count_text(n: Option<u32>)
    ensures
        parse_u32(count_text(n)) == n,
        !count_text(n).contains('\t'),
{
    match n {
        Some(v) => {
            lemma_decimal_plain(v as nat);
            lemma_decimal_digits(v as nat);
            let d = decimal(v as nat);
            assert(is_digit(d[0]));
            assert(crate::num::unsigned_digits(d) == d);
            if d.contains('\t') {
                let i = choose|i: int| 0 <= i < d.len() && d[i] == '\t';
                assert(is_digit(d[i]));
            }
        },
        None => {
            let m = seq!['-'];
            assert(crate::num::unsigned_digits(m) == m);
            assert(!is_digit(m[0]));
        },
    }
}

/// The first `--numstat` token of a change gives its counts and says
/// whether the paths follow as tokens of their own.
proof fn lemma_numstat_token(c: FileChange)
    requires
        change_ready(c),
    ensures
        numstat_counts(numstat_tokens(c)[0]) == (c.file.additions, c.file.deletions),
        numstat_without_path(numstat_tokens(c)[0]) == is_rename_or_copy(c.file.status),
{
    let ca = count_text(c.file.additions);
    let cd = count_text(c.file.deletions);
    lemma_count_text(c.file.additions);
    lemma_count_text(c.file.deletions);
    let tab = seq!['\t'];
    let tok = numstat_tokens(c)[0];
    let tail = if is_rename_or_copy(c.file.status) { Seq::<char>::empty() } else { c.file.path };
    assert(tok =~= ca + tab + (cd + tab + tail));
    lemma_split_on_prefix(cd, tail, '\t');
    lemma_split_on_prefix(ca, cd + tab + tail, '\t');
    lemma_split_on_nonempty(tail, '\t');
    let pieces = split_on(tok, '\t');
    assert(pieces =~= seq![ca, cd] + split_on(tail, '\t'));
    if is_rename_or_copy(c.file.status) {
        assert(split_on(tail, '\t') == seq![Seq::<char>::empty()]);
    } else {
        if !c.file.path.contains('\t') {
            lemma_split_on_without_sep(c.file.path, '\t');
        }
        assert(pieces.len() == 3 ==> pieces[2] == c.file.path) by {
            if c.file.path.contains('\t') {
                lemma_split_on_with_sep(c.file.path, '\t');
            }
        }
    }
}

/// No token of a change holds a NUL.
proof fn lemma_change_tokens_no_nul(c: FileChange)
    requires
        change_ready(c),
    ensures
        forall|i: int| 0 <= i < raw_tokens(c).len() ==> !(#[trigger] raw_tokens(c)[i]).contains('\0'),
        forall|i: int|
            0 <= i < numstat_tokens(c).len() ==> !(#[trigger] numstat_tokens(c)[i]).contains('\0'),
{
    let m = seq![':'] + c.meta + seq![' '] + c.file.status;
    if m.contains('\0') {
        let j = choose|j: int| 0 <= j < m.len() && m[j] == '\0';
        let k0 = 1 + c.meta.len();
        if 1 <= j < k0 {
            assert(c.meta[j - 1] == '\0');
        } else if j > k0 {
            assert(c.file.status[j - k0 - 1] == '\0');
        }
    }
    assert(raw_tokens(c)[0] == m);
    let ca = count_text(c.file.additions);
    let cd = count_text(c.file.deletions);
    assert(!ca.contains('\0') && !cd.contains('\0')) by {
        lemma_count_chars(c.file.additions);
        lemma_count_chars(c.file.deletions);
    }
    let counts = ca + seq!['\t'] + cd + seq!['\t'];
    let first = numstat_tokens(c)[0];
    if first.contains('\0') {
        let j = choose|j: int| 0 <= j < first.len() && first[j] == '\0';
        let k0 = ca.len() as int;
        let k1 = k0 + 1 + cd.len();
        if j < k0 {
            assert(ca[j] == '\0');
        } else if k0 < j < k1 {
            assert(cd[j - k0 - 1] == '\0');
        } else if j > k1 + 1 {
            assert(c.file.path[j - k1 - 1] == '\0');
        } else if j == k1 + 1 {
            if !is_rename_or_copy(c.file.status) {
                assert(c.file.path[0] == '\0');
            }
        }
    }
}

/// A count's text is digits or `-`.
proof fn lemma_count_chars(n: Option<u32>)
    ensures
        count_text(n).len() > 0,
        forall|i: int| 0 <= i < count_text(n).len() ==> (is_digit(#[trigger] count_text(n)[i]) || count_text(n)[i] == '-'),
        !count_text(n).contains('\0'),
{
    match n {
        Some(v) => {
            lemma_decimal_plain(v as nat);
        },
        None => {},
    }
    let t = count_text(n);
    if t.contains('\0') {
        let j = choose|j: int| 0 <= j < t.len() && t[j] == '\0';
        assert(is_digit(t[j]) || t[j] == '-');
    }
}

/// No token of any change holds a NUL.
proof fn lemma_all_tokens_no_nul(cs: Seq<FileChange>)
    requires
        forall|i: int| 0 <= i < cs.len() ==> #[trigger] change_ready(cs[i]),
    ensures
        forall|i: int|
            0 <= i < all_raw_tokens(cs).len() ==> !(#[trigger] all_raw_tokens(cs)[i]).contains('\0'),
        forall|i: int|
            0 <= i < all_numstat_tokens(cs).len() ==> !(#[trigger] all_numstat_tokens(cs)[i]).contains(
                '\0',
            ),
    decreases cs.len(),
{
    if cs.len() > 0 {
        let tail = cs.drop_first();
        assert forall|i: int| 0 <= i < tail.len() implies #[trigger] change_ready(tail[i]) by {
            assert(tail[i] == cs[i + 1]);
        }
        assert(change_ready(cs[0]));
        lemma_all_tokens_no_nul(tail);
        lemma_change_tokens_no_nul(cs[0]);
        let g = raw_tokens(cs[0]);
        let h = numstat_tokens(cs[0]);
        assert forall|i: int| 0 <= i < all_raw_tokens(cs).len() implies !(
        #[trigger] all_raw_tokens(cs)[i]).contains('\0') by {
            if i < g.len() {
                assert(all_raw_tokens(cs)[i] == g[i]);
            } else {
                assert(all_raw_tokens(cs)[i] == all_raw_tokens(tail)[i - g.len()]);
            }
        }
        assert forall|i: int| 0 <= i < all_numstat_tokens(cs).len() implies !(
        #[trigger] all_numstat_tokens(cs)[i]).contains('\0') by {
            if i < h.len() {
                assert(all_numstat_tokens(cs)[i] == h[i]);
            } else {
                assert(all_numstat_tokens(cs)[i] == all_numstat_tokens(tail)[i - h.len()]);
            }
        }
    }
}

/// Reading what `git show --raw --numstat -z` writes for some changes
/// gives back the changed files, in order: statuses, paths (the new path
/// of a rename or copy) and line counts.
pub proof fn law_changed_files_round_trip(cs: Seq<FileChange>)
    requires
        forall|i: int| 0 <= i < cs.len() ==> #[trigger] change_ready(cs[i]),
    ensures
        changed_files_of(show_output(cs)) == Seq::new(cs.len(), |i: int| cs[i].file),
{
    let r = all_raw_tokens(cs);
    let n = all_numstat_tokens(cs);
    let toks = r + n;
    lemma_all_tokens_no_nul(cs);
    assert forall|i: int| 0 <= i < toks.len() implies !(#[trigger] toks[i]).contains('\0') by {
        if i < r.len() {
            assert(toks[i] == r[i]);
        } else {
            assert(toks[i] == n[i - r.len()]);
        }
    }
    lemma_split_terminated(toks, '\0');
    assert(toks.push(Seq::<char>::empty()).drop_last() =~= toks);
    assert(nul_tokens(show_output(cs)) == toks);
    assert(n.len() == 0 || !is_meta(n[0])) by {
        if cs.len() > 0 {
            let c = cs[0];
            assert(n =~= numstat_tokens(c) + all_numstat_tokens(cs.drop_first()));
            assert(n[0] == numstat_tokens(c)[0]);
            lemma_count_chars(c.file.additions);
            let ca = count_text(c.file.additions);
            assert(n[0][0] == ca[0]);
            assert(is_digit(ca[0]) || ca[0] == '-');
        }
    }
    lemma_raw_phase(cs, n);
    lemma_stat_phase(cs);
    lemma_stat_records_shift(r, n, 0, cs.len());
    assert(r.len() + 0 == r.len());
    let recs = raw_records(toks, 0);
    let stats = stat_records(toks, recs.1, recs.0.len());
    assert(recs.0.len() == cs.len());
    assert(stats.len() == cs.len());
    assert(changed_files_of(show_output(cs)) =~= Seq::new(cs.len(), |i: int| cs[i].file));
}

/// The bounds of `last_word` within `s`.
fn last_word_range(s: &[char]) -> (r: (usize, usize))
    ensures
        r.0 <= r.1 <= s@.len(),
        s@.subrange(r.0 as int, r.1 as int) == last_word(s@),
{
    let e = trim_end_index(s);
    proof {
        lemma_trim_end_len_bound(s@);
    }
    let ghost t = s@.take(e as int);
    let mut b = e;
    assert(t.take(b as int) =~= t);
    while b > 0 && !white(s[b - 1])
        invariant
            b <= e,
            e <= s@.len(),
            t == s@.take(e as int),
            word_start(t) == word_start(t.take(b as int)),
        decreases b,
    {
        assert(t.take(b as int).drop_last() =~= t.take(b - 1));
        b = b - 1;
    }
    assert(s@.subrange(b as int, e as int) =~= t.skip(b as int));
    (b, e)
}

/// Parses the output of `git show --raw --numstat -z -M --format=`: each
/// `--raw` record gives a status (the last word of its meta token) and a
/// path (the new path of a rename or copy), and the `--numstat` records
/// after them give the line counts (`-` for binary files, which gives no
/// count).
pub fn parse_changed_files(raw: &str) -> (r: Vec<ChangedFile>)
    ensures
        changed_file_views(r@) == changed_files_of(raw@),
{
    let chars = chars_of(raw);
    let toks = split_chars(&chars, '\0');
    proof {
        lemma_split_on_nonempty(raw@, '\0');
    }
    let ghost all = views_of(toks@);
    let total: usize = if toks[toks.len() - 1].len() == 0 {
        toks.len() - 1
    } else {
        toks.len()
    };
    let ghost t = nul_tokens(raw@);
    assert(t =~= all.take(total as int));
    // The `--raw` records.
    let mut statuses: Vec<String> = Vec::new();
    let mut paths: Vec<String> = Vec::new();
    let mut pos: usize = 0;
    while pos < total && toks[pos].len() > 0 && toks[pos][0] == ':'
        invariant
            all == views_of(toks@),
            t == all.take(total as int),
            total <= toks@.len(),
            pos <= total,
            statuses@.len() == paths@.len(),
            raw_records(t, 0).1 == raw_records(t, pos as int).1,
            raw_records(t, 0).0 == Seq::new(
                statuses@.len() as nat,
                |i: int| (statuses@[i]@, paths@[i]@),
            ) + raw_records(t, pos as int).0,
        decreases total - pos,
    {
        let ghost before = Seq::new(statuses@.len() as nat, |i: int| (statuses@[i]@, paths@[i]@));
        let meta = &toks[pos];
        assert(meta@ == t[pos as int]);
        let (b, e) = last_word_range(meta.as_slice());
        let status_chars = &meta.as_slice()[b..e];
        let rc = status_chars.len() > 0 && (status_chars[0] == 'R' || status_chars[0] == 'C');
        let k: usize = if rc { 2 } else { 1 };
        let path = if k < total - pos {
            string_of(toks[pos + k].as_slice())
        } else {
            String::new()
        };
        let status = string_of(status_chars);
        assert(path@ == token_at(t, pos + k));
        let next = if 1 + k <= total - pos { pos + 1 + k } else { total };
        statuses.push(status);
        paths.push(path);
        assert(Seq::new(statuses@.len() as nat, |i: int| (statuses@[i]@, paths@[i]@)) =~= before.push(
            (last_word(t[pos as int]), token_at(t, pos + k)),
        ));
        assert(raw_records(t, pos as int).0 =~= seq![(last_word(t[pos as int]), token_at(t, pos + k))]
            + raw_records(t, next as int).0);
        pos = next;
    }
    let ghost recs = raw_records(t, 0);
    assert(raw_records(t, pos as int).0 =~= Seq::<(Seq<char>, Seq<char>)>::empty());
    assert(recs.0 =~= Seq::new(statuses@.len() as nat, |i: int| (statuses@[i]@, paths@[i]@)));
    // The `--numstat` records.
    let want = statuses.len();
    let mut adds: Vec<Option<u32>> = Vec::new();
    let mut dels: Vec<Option<u32>> = Vec::new();
    while adds.len() < want && pos < total
        invariant
            all == views_of(toks@),
            t == all.take(total as int),
            total <= toks@.len(),
            pos <= total,
            want == recs.0.len(),
            adds@.len() == dels@.len(),
            adds@.len() <= want,
            stat_records(t, recs.1, want as nat) == Seq::new(
                adds@.len() as nat,
                |i: int| (adds@[i], dels@[i]),
            ) + stat_records(t, pos as int, (want - adds@.len()) as nat),
        decreases want - adds@.len(),
    {
        let ghost before = Seq::new(adds@.len() as nat, |i: int| (adds@[i], dels@[i]));
        let tok = &toks[pos];
        assert(tok@ == t[pos as int]);
        let pieces = split_chars(tok.as_slice(), '\t');
        proof {
            lemma_split_on_nonempty(tok@, '\t');
        }
        assert(pieces@[0]@ == split_on(tok@, '\t')[0]);
        let add = to_u32(pieces[0].as_slice());
        let del = if pieces.len() >= 2 {
            assert(pieces@[1]@ == split_on(tok@, '\t')[1]);
            to_u32(pieces[1].as_slice())
        } else {
            proof {
                lemma_parse_zero();
            }
            Some(0)
        };
        let no_path = pieces.len() < 3 || (pieces.len() == 3 && pieces[2].len() == 0);
        proof {
            if pieces@.len() == 3 {
                assert(pieces@[2]@ == split_on(tok@, '\t')[2]);
            }
        }
        assert(no_path == numstat_without_path(t[pos as int]));
        assert((add, del) == numstat_counts(t[pos as int]));
        let used: usize = if no_path { 3 } else { 1 };
        let next = if used <= total - pos { pos + used } else { total };
        adds.push(add);
        dels.push(del);
        assert(Seq::new(adds@.len() as nat, |i: int| (adds@[i], dels@[i])) =~= before.push((add, del)));
        assert(stat_records(t, pos as int, (want - before.len()) as nat) =~= seq![(add, del)]
            + stat_records(t, next as int, (want - adds@.len()) as nat));
        pos = next;
    }
    let ghost stats = stat_records(t, recs.1, want as nat);
    assert(stat_records(t, pos as int, (want - adds@.len()) as nat) =~= Seq::<
        (Option<u32>, Option<u32>),
    >::empty());
    assert(stats =~= Seq::new(adds@.len() as nat, |i: int| (adds@[i], dels@[i])));
    // Pair them up.
    let n = adds.len();
    let mut files: Vec<ChangedFile> = Vec::new();
    let mut i: usize = 0;
    while i < n
        invariant
            n == adds@.len(),
            n <= statuses@.len(),
            statuses@.len() == paths@.len(),
            adds@.len() == dels@.len(),
            0 <= i <= n,
            files@.len() == i,
            forall|j: int|
                0 <= j < i ==> #[trigger] files@[j]@ == (ChangedFileView {
                    path: paths@[j]@,
                    status: statuses@[j]@,
                    additions: adds@[j],
                    deletions: dels@[j],
                }),
        decreases n - i,
    {
        let f = ChangedFile {
            path: paths[i].clone(),
            status: statuses[i].clone(),
            additions: adds[i],
            deletions: dels[i],
        };
        files.push(f);
        i = i + 1;
    }
    assert(changed_file_views(files@) =~= changed_files_of(raw@));
    files
}


// ---------------------------------------------------------------------
// `git blame --line-porcelain`
// ---------------------------------------------------------------------

/// Whether `s` begins with `p`.
pub open spec fn has_prefix(s: Seq<char>, p: Seq<char>) -> bool {
    p.len() <= s.len() && s.take(p.len() as int) == p
}

/// Executable `has_prefix`.
pub fn starts_with(s: &[char], p: &[char]) -> (r: bool)
    ensures
        r == has_prefix(s@, p@),
{
    if p.len() > s.len() {
        return false;
    }
    let mut i: usize = 0;
    while i < p.len()
        invariant
            p@.len() <= s@.len(),
            0 <= i <= p@.len(),
            forall|j: int| 0 <= j < i ==> s@[j] == p@[j],
        decreases p@.len() - i,
    {
        if s[i] != p[i] {
            assert(s@.take(p@.len() as int)[i as int] != p@[i as int]);
            return false;
        }
        i = i + 1;
    }
    assert(s@.take(p@.len() as int) =~= p@);
    true
}

/// What the blame reader remembers between lines: the commit of the
/// current group, the final line number from its header, and the author
/// and author time last seen.
pub struct BlameState {
    pub hash: Option<Seq<char>>,
    pub line_no: usize,
    pub author: Seq<char>,
    pub time: i64,
}

/// The state before the first line.
pub open spec fn blame_start() -> BlameState {
    BlameState { hash: None, line_no: 0, author: Seq::empty(), time: 0 }
}

/// A header line: `<hex hash> <orig line> <final line> [<group size>]`,
/// read as the space-separated tokens of the line.
pub open spec fn is_blame_header(line: Seq<char>) -> bool {
    let toks = split_on(line, ' ');
    &&& toks.len() >= 3
    &&& toks[0].len() > 0 && all_hex(toks[0])
    &&& toks[1].len() > 0 && all_digits(toks[1])
    &&& toks[2].len() > 0 && all_digits(toks[2])
}

/// The first (at most) seven characters of a hash.
pub open spec fn short_of(h: Seq<char>) -> Seq<char> {
    if h.len() <= 7 {
        h
    } else {
        h.take(7)
    }
}

/// The line number after `n` (wrapping at the top of `usize`).
pub open spec fn next_line_no(n: usize) -> usize {
    if n == usize::MAX {
        0
    } else {
        (n + 1) as usize
    }
}

/// One line of porcelain output: a tab-prefixed content line yields a
/// blamed line when a header came before it; a header starts a group; an
/// `author-time ` or `author ` line updates the group's author data; every
/// other line changes nothing. A trailing `\r` is ignored.
pub open spec fn blame_step(st: BlameState, raw_line: Seq<char>) -> (BlameState, Option<BlameLineView>) {
    let line = strip_cr(raw_line);
    if line.len() > 0 && line[0] == '\t' {
        match st.hash {
            Some(h) => (
                st,
                Some(
                    BlameLineView {
                        line_no: st.line_no,
                        commit_hash: h,
                        short_hash: short_of(h),
                        author: st.author,
                        author_time: st.time,
                        content: line.drop_first(),
                    },
                ),
            ),
            None => (st, None),
        }
    } else if line.len() == 0 {
        (st, None)
    } else if is_blame_header(line) {
        let toks = split_on(line, ' ');
        let n = match parse_usize(toks[2]) {
            Some(v) => v,
            None => next_line_no(st.line_no),
        };
        (BlameState { hash: Some(toks[0]), line_no: n, author: st.author, time: st.time }, None)
    } else if has_prefix(line, "author-time "@) {
        let t = match parse_i64(trimmed(line.skip(12))) {
            Some(v) => v,
            None => 0,
        };
        (BlameState { hash: st.hash, line_no: st.line_no, author: st.author, time: t }, None)
    } else if has_prefix(line, "author "@) {
        (BlameState { hash: st.hash, line_no: st.line_no, author: line.skip(7), time: st.time }, None)
    } else {
        (st, None)
    }
}

/// The state after a run of lines, and the blamed lines they yield.
pub open spec fn blame_run(lines: Seq<Seq<char>>) -> (BlameState, Seq<BlameLineView>)
    decreases lines.len(),
{
    if lines.len() == 0 {
        (blame_start(), Seq::empty())
    } else {
        let prev = blame_run(lines.drop_last());
        let step = blame_step(prev.0, lines.last());
        (
            step.0,
            match step.1 {
                Some(b) => prev.1.push(b),
                None => prev.1,
            },
        )
    }
}

/// The blamed lines of `git blame --line-porcelain` output, whose lines
/// are the pieces between `\n`.
pub open spec fn blame_of(raw: Seq<char>) -> Seq<BlameLineView> {
    blame_run(split_on(raw, '\n')).1
}

/// A line that the blame reader passes over: not content, not a group
/// header and not author data (such as the `author-mail`, `committer`,
/// `summary` and `filename` lines).
pub open spec fn inert_blame_line(l: Seq<char>) -> bool {
    let line = strip_cr(l);
    &&& !l.contains('\n')
    &&& !(line.len() > 0 && line[0] == '\t')
    &&& !is_blame_header(line)
    &&& !has_prefix(line, "author-time "@)
    &&& !has_prefix(line, "author "@)
}

/// The porcelain that `git blame --line-porcelain` writes for one line that
/// starts a group: the header with the line numbers in the blamed commit and in the file,
/// the author and author time, other header lines, and the content after a
/// tab.
pub open spec fn blame_porcelain(b: BlameLineView, orig: usize, others: Seq<Seq<char>>) -> Seq<Seq<char>> {
    seq![
        porcelain_header(b.commit_hash, orig, b.line_no),
        "author "@ + b.author,
        "author-time "@ + i64_text(b.author_time),
    ] + others + seq![seq!['\t'] + b.content]
}

/// Text that fits on one porcelain line without losing a trailing `\r`.
pub open spec fn porcelain_text(s: Seq<char>) -> bool {
    !s.contains('\n') && !(s.len() > 0 && s.last() == '\r')
}

/// A blamed line that its porcelain can carry: a hex hash (the short hash
/// being its first seven characters), and author and content on one line.
pub open spec fn porcelain_ready(b: BlameLineView, others: Seq<Seq<char>>) -> bool {
    &&& b.commit_hash.len() > 0
    &&& all_hex(b.commit_hash)
    &&& b.short_hash == short_of(b.commit_hash)
    &&& porcelain_text(b.author)
    &&& porcelain_text(b.content)
    &&& forall|i: int| 0 <= i < others.len() ==> #[trigger] inert_blame_line(others[i])
}

/// Lines the reader passes over change nothing.
proof fn lemma_blame_run_inert(p: Seq<Seq<char>>, others: Seq<Seq<char>>)
    requires
        forall|i: int| 0 <= i < others.len() ==> #[trigger] inert_blame_line(others[i]),
    ensures
        blame_run(p + others) == blame_run(p),
    decreases others.len(),
{
    if others.len() == 0 {
        assert(p + others =~= p);
    } else {
        let o = others.drop_last();
        assert forall|i: int| 0 <= i < o.len() implies #[trigger] inert_blame_line(o[i]) by {
            assert(o[i] == others[i]);
        }
        lemma_blame_run_inert(p, o);
        assert((p + others).drop_last() =~= p + o);
        assert((p + others).last() == others[others.len() - 1]);
        assert(inert_blame_line(others[others.len() - 1]));
    }
}

/// A text with a non-hex character at `i` is no hex run.
proof fn lemma_not_all_hex(s: Seq<char>, i: int)
    requires
        0 <= i < s.len(),
        !is_hex(s[i]),
    ensures
        !all_hex(s),
{
}

/// The header line of a porcelain block.
pub open spec fn porcelain_header(hash: Seq<char>, orig: usize, line_no: usize) -> Seq<char> {
    hash + seq![' '] + decimal(orig as nat) + seq![' '] + decimal(line_no as nat)
}

/// A decimal number holds neither space nor newline.
proof fn lemma_decimal_plain(n: nat)
    ensures
        !decimal(n).contains(' '),
        !decimal(n).contains('\n'),
        decimal(n).len() > 0,
        all_digits(decimal(n)),
        is_digit(decimal(n).last()),
{
    lemma_decimal_digits(n);
    let d = decimal(n);
    assert(is_digit(d[d.len() - 1]));
    if d.contains(' ') || d.contains('\n') {
        let i = choose|i: int| 0 <= i < d.len() && (d[i] == ' ' || d[i] == '\n');
        assert(is_digit(d[i]));
    }
}

/// The header line starts a group with its hash and final line number.
#[verifier::rlimit(50)]
proof fn lemma_header_step(st: BlameState, hash: Seq<char>, orig: usize, line_no: usize)
    requires
        hash.len() > 0,
        all_hex(hash),
    ensures
        !porcelain_header(hash, orig, line_no).contains('\n'),
        blame_step(st, porcelain_header(hash, orig, line_no)) == (
            BlameState { hash: Some(hash), line_no, author: st.author, time: st.time },
            None::<BlameLineView>,
        ),
{
    let sp = seq![' '];
    let d_orig = decimal(orig as nat);
    let d_line = decimal(line_no as nat);
    let h = porcelain_header(hash, orig, line_no);
    lemma_decimal_plain(orig as nat);
    lemma_decimal_plain(line_no as nat);
    lemma_parse_decimal_usize(line_no);
    assert(!hash.contains('\n') && !hash.contains(' ')) by {
        if hash.contains('\n') || hash.contains(' ') {
            let i = choose|i: int| 0 <= i < hash.len() && (hash[i] == '\n' || hash[i] == ' ');
            assert(is_hex(hash[i]));
        }
    }
    if h.contains('\n') {
        let j = choose|j: int| 0 <= j < h.len() && h[j] == '\n';
        let n0 = hash.len() as int;
        let n1 = n0 + 1 + d_orig.len();
        if j < n0 {
            assert(hash[j] == '\n');
        } else if j == n0 || j == n1 {
        } else if j < n1 {
            assert(d_orig[j - n0 - 1] == '\n');
        } else {
            assert(d_line[j - n1 - 1] == '\n');
        }
    }
    lemma_split_on_without_sep(d_line, ' ');
    lemma_split_on_prefix(d_orig, d_line, ' ');
    lemma_split_on_prefix(hash, d_orig + sp + d_line, ' ');
    assert(h =~= hash + sp + (d_orig + sp + d_line));
    assert(split_on(h, ' ') =~= seq![hash, d_orig, d_line]);
    assert(h.last() == d_line.last());
    assert(strip_cr(h) == h);
    assert(h[0] == hash[0]);
    assert(is_hex(hash[0]));
    assert(is_blame_header(h));
}

/// The author line sets the author.
#[verifier::rlimit(50)]
proof fn lemma_author_step(st: BlameState, author: Seq<char>)
    requires
        porcelain_text(author),
    ensures
        !("author "@ + author).contains('\n'),
        blame_step(st, "author "@ + author) == (
            BlameState { hash: st.hash, line_no: st.line_no, author, time: st.time },
            None::<BlameLineView>,
        ),
{
    reveal_strlit("author ");
    reveal_strlit("author-time ");
    let sp = seq![' '];
    let a = "author "@ + author;
    if a.contains('\n') {
        let j = choose|j: int| 0 <= j < a.len() && a[j] == '\n';
        if j >= 7 {
            assert(author[j - 7] == '\n');
        }
    }
    assert(strip_cr(a) == a) by {
        if author.len() > 0 {
            assert(a.last() == author.last());
        } else {
            assert(a.last() == ' ');
        }
    }
    let word = seq!['a', 'u', 't', 'h', 'o', 'r'];
    lemma_split_on_prefix(word, author, ' ');
    assert(a =~= word + sp + author);
    assert(!all_hex(split_on(a, ' ')[0])) by {
        lemma_not_all_hex(split_on(a, ' ')[0], 1);
    }
    assert(!has_prefix(a, "author-time "@)) by {
        if has_prefix(a, "author-time "@) {
            assert(a.take(12)[6] == a[6]);
        }
    }
    assert(a.take(7) =~= "author "@);
    assert(a.skip(7) =~= author);
}

/// The author-time line is one line, kept as it is by `strip_cr`.
proof fn lemma_time_line_plain(time: i64)
    ensures
        !("author-time "@ + i64_text(time)).contains('\n'),
        strip_cr("author-time "@ + i64_text(time)) == "author-time "@ + i64_text(time),
{
    reveal_strlit("author-time ");
    let it = i64_text(time);
    lemma_parse_i64_text(time);
    let t = "author-time "@ + it;
    if t.contains('\n') {
        let j = choose|j: int| 0 <= j < t.len() && t[j] == '\n';
        if j >= 12 {
            assert(it[j - 12] == '\n');
        }
    }
    assert(t.last() == it.last());
}

/// The author-time line is no header and carries the time after its prefix.
proof fn lemma_time_line_fields(time: i64)
    ensures
        ("author-time "@ + i64_text(time))[0] == 'a',
        !is_blame_header("author-time "@ + i64_text(time)),
        has_prefix("author-time "@ + i64_text(time), "author-time "@),
        parse_i64(trimmed(("author-time "@ + i64_text(time)).skip(12))) == Some(time),
{
    reveal_strlit("author-time ");
    let sp = seq![' '];
    let it = i64_text(time);
    lemma_parse_i64_text(time);
    let t = "author-time "@ + it;
    let word = seq!['a', 'u', 't', 'h', 'o', 'r', '-', 't', 'i', 'm', 'e'];
    lemma_split_on_prefix(word, it, ' ');
    assert(t =~= word + sp + it);
    assert(!all_hex(split_on(t, ' ')[0])) by {
        lemma_not_all_hex(split_on(t, ' ')[0], 1);
    }
    assert(t.take(12) =~= "author-time "@);
    assert(t.skip(12) =~= it);
    lemma_trimmed_plain(it);
    assert(t[0] == 'a');
}

/// The author-time line sets the author time.
proof fn lemma_time_step(st: BlameState, time: i64)
    ensures
        !("author-time "@ + i64_text(time)).contains('\n'),
        blame_step(st, "author-time "@ + i64_text(time)) == (
            BlameState { hash: st.hash, line_no: st.line_no, author: st.author, time },
            None::<BlameLineView>,
        ),
{
    lemma_time_line_plain(time);
    lemma_time_line_fields(time);
}

/// The content line yields the blamed line.
proof fn lemma_content_step(st: BlameState, content: Seq<char>)
    requires
        porcelain_text(content),
        st.hash is Some,
    ensures
        !(seq!['\t'] + content).contains('\n'),
        blame_step(st, seq!['\t'] + content) == (
            st,
            Some(
                BlameLineView {
                    line_no: st.line_no,
                    commit_hash: st.hash->0,
                    short_hash: short_of(st.hash->0),
                    author: st.author,
                    author_time: st.time,
                    content,
                },
            ),
        ),
{
    let c = seq!['\t'] + content;
    if c.contains('\n') {
        let j = choose|j: int| 0 <= j < c.len() && c[j] == '\n';
        if j >= 1 {
            assert(content[j - 1] == '\n');
        }
    }
    assert(strip_cr(c) == c) by {
        if content.len() > 0 {
            assert(c.last() == content.last());
        }
    }
    assert(c.drop_first() =~= content);
}

/// One more line runs one more step.
proof fn lemma_blame_run_push(p: Seq<Seq<char>>, l: Seq<char>)
    ensures
        blame_run(p.push(l)) == ({
            let prev = blame_run(p);
            let step = blame_step(prev.0, l);
            (
                step.0,
                match step.1 {
                    Some(x) => prev.1.push(x),
                    None => prev.1,
                },
            )
        }),
{
    assert(p.push(l).drop_last() =~= p);
}

/// Reading the porcelain of one blamed line gives back that line: the
/// header's commit and final line number, the author and author time, and
/// the content, whatever other header lines come between.
pub proof fn law_blame_porcelain_round_trip(b: BlameLineView, orig: usize, others: Seq<Seq<char>>)
    requires
        porcelain_ready(b, others),
    ensures
        blame_of(terminated(blame_porcelain(b, orig, others), '\n')) == seq![b],
{
    let h = porcelain_header(b.commit_hash, orig, b.line_no);
    let a = "author "@ + b.author;
    let t = "author-time "@ + i64_text(b.author_time);
    let c = seq!['\t'] + b.content;
    let ls = blame_porcelain(b, orig, others);
    assert(ls =~= seq![h, a, t] + others + seq![c]);
    let s0 = blame_start();
    lemma_header_step(s0, b.commit_hash, orig, b.line_no);
    let s1 = BlameState { hash: Some(b.commit_hash), line_no: b.line_no, author: s0.author, time: s0.time };
    lemma_author_step(s1, b.author);
    let s2 = BlameState { hash: s1.hash, line_no: s1.line_no, author: b.author, time: s1.time };
    lemma_time_step(s2, b.author_time);
    let s3 = BlameState { hash: s2.hash, line_no: s2.line_no, author: s2.author, time: b.author_time };
    lemma_content_step(s3, b.content);
    assert forall|i: int| 0 <= i < ls.len() implies !(#[trigger] ls[i]).contains('\n') by {
        if 3 <= i < 3 + others.len() {
            assert(ls[i] == others[i - 3]);
            assert(inert_blame_line(others[i - 3]));
        }
    }
    lemma_split_terminated(ls, '\n');
    let e = Seq::<Seq<char>>::empty();
    assert(blame_run(e) == (s0, Seq::<BlameLineView>::empty()));
    lemma_blame_run_push(e, h);
    assert(e.push(h) =~= seq![h]);
    lemma_blame_run_push(seq![h], a);
    assert(seq![h].push(a) =~= seq![h, a]);
    lemma_blame_run_push(seq![h, a], t);
    assert(seq![h, a].push(t) =~= seq![h, a, t]);
    let p3 = seq![h, a, t];
    assert(blame_run(p3) == (s3, Seq::<BlameLineView>::empty()));
    lemma_blame_run_inert(p3, others);
    let p4 = p3 + others + seq![c];
    assert(p4 =~= (p3 + others).push(c));
    lemma_blame_run_push(p3 + others, c);
    assert(Seq::<BlameLineView>::empty().push(b) =~= seq![b]);
    assert(blame_run(p4) == (s3, seq![b]));
    lemma_blame_run_push(p4, Seq::<char>::empty());
    assert(ls.push(Seq::<char>::empty()) =~= p4.push(Seq::<char>::empty()));
}

/// Views of blamed lines.
pub open spec fn blame_line_views(v: Seq<BlameLine>) -> Seq<BlameLineView> {
    v.map_values(|b: BlameLine| b@)
}

/// The state that the reader's variables hold.
pub open spec fn blame_state_of(hash: Option<Vec<char>>, line_no: usize, author: Seq<char>, time: i64) -> BlameState {
    BlameState {
        hash: match hash {
            Some(h) => Some(h@),
            None => None,
        },
        line_no,
        author,
        time,
    }
}

/// Whether the token is a nonempty run of characters that satisfy the
/// digit test (`hex` chooses hexadecimal digits).
fn all_of(tok: &[char], hex: bool) -> (r: bool)
    ensures
        r == (tok@.len() > 0 && (if hex { all_hex(tok@) } else { all_digits(tok@) })),
{
    if tok.len() == 0 {
        return false;
    }
    let mut i: usize = 0;
    while i < tok.len()
        invariant
            0 <= i <= tok@.len(),
            hex ==> forall|j: int| 0 <= j < i ==> #[trigger] is_hex(tok@[j]),
            !hex ==> forall|j: int| 0 <= j < i ==> #[trigger] is_digit(tok@[j]),
        decreases tok@.len() - i,
    {
        let c = tok[i];
        let ok = if hex {
            ('0' <= c && c <= '9') || ('a' <= c && c <= 'f') || ('A' <= c && c <= 'F')
        } else {
            '0' <= c && c <= '9'
        };
        if !ok {
            assert(hex ==> !is_hex(tok@[i as int]));
            assert(!hex ==> !is_digit(tok@[i as int]));
            return false;
        }
        i = i + 1;
    }
    true
}

/// Reads one blame line's group header, if it is one: the hash and the
/// final line number token.
fn header_tokens(line: &[char]) -> (r: Option<(Vec<char>, Vec<char>)>)
    ensures
        match r {
            Some((h, n)) => is_blame_header(line@) && h@ == split_on(line@, ' ')[0] && n@ == split_on(
                line@,
                ' ',
            )[2],
            None => !is_blame_header(line@),
        },
{
    let toks = split_chars(line, ' ');
    if toks.len() < 3 {
        return None;
    }
    assert(toks@[0]@ == split_on(line@, ' ')[0]);
    assert(toks@[1]@ == split_on(line@, ' ')[1]);
    assert(toks@[2]@ == split_on(line@, ' ')[2]);
    if all_of(toks[0].as_slice(), true) && all_of(toks[1].as_slice(), false) && all_of(
        toks[2].as_slice(),
        false,
    ) {
        let h = copy_chars(toks[0].as_slice());
        let n = copy_chars(toks[2].as_slice());
        assert(h@ =~= toks@[0]@);
        assert(n@ =~= toks@[2]@);
        Some((h, n))
    } else {
        None
    }
}

/// Parses `git blame --line-porcelain` output into blamed lines: each
/// content line (one that starts with a tab) after a group header gets the
/// header's commit and final line number and the author data read since.
pub fn parse_blame(raw: &str) -> (r: Vec<BlameLine>)
    ensures
        blame_line_views(r@) == blame_of(raw@),
{
    let chars = chars_of(raw);
    let lines = split_chars(&chars, '\n');
    let ghost ls = views_of(lines@);
    let author_time = chars_of("author-time ");
    let author_tag = chars_of("author ");
    let mut result: Vec<BlameLine> = Vec::new();
    let mut cur_hash: Option<Vec<char>> = None;
    let mut cur_line_no: usize = 0;
    let mut cur_author: Vec<char> = Vec::new();
    let mut cur_time: i64 = 0;
    let mut i: usize = 0;
    assert(ls.take(0) =~= Seq::<Seq<char>>::empty());
    while i < lines.len()
        invariant
            ls == views_of(lines@),
            author_time@ == "author-time "@,
            author_tag@ == "author "@,
            0 <= i <= lines@.len(),
            blame_run(ls.take(i as int)).0 == blame_state_of(cur_hash, cur_line_no, cur_author@, cur_time),
            blame_run(ls.take(i as int)).1 == blame_line_views(result@),
        decreases lines@.len() - i,
    {
        let ghost st = blame_state_of(cur_hash, cur_line_no, cur_author@, cur_time);
        let ghost before = blame_line_views(result@);
        assert(ls.take(i + 1).drop_last() =~= ls.take(i as int));
        assert(ls.take(i + 1).last() == ls[i as int]);
        let raw_line = lines[i].as_slice();
        assert(raw_line@ == ls[i as int]);
        let n = raw_line.len();
        let end = if n > 0 && raw_line[n - 1] == '\r' { n - 1 } else { n };
        let line = &raw_line[0..end];
        assert(line@ =~= strip_cr(ls[i as int]));
        let ghost step = blame_step(st, ls[i as int]);
        if line.len() > 0 && line[0] == '\t' {
            match &cur_hash {
                Some(h) => {
                    let hl = h.len();
                    let sl = if hl <= 7 { hl } else { 7 };
                    let short = &h.as_slice()[0..sl];
                    assert(short@ =~= short_of(h@));
                    let content = &line[1..line.len()];
                    assert(content@ =~= line@.drop_first());
                    let b = BlameLine {
                        line_no: cur_line_no,
                        commit_hash: string_of(h.as_slice()),
                        short_hash: string_of(short),
                        author: string_of(cur_author.as_slice()),
                        author_time: cur_time,
                        content: string_of(content),
                    };
                    result.push(b);
                    assert(blame_line_views(result@) =~= before.push(step.1.unwrap()));
                },
                None => {},
            }
        } else if line.len() == 0 {
        } else {
            match header_tokens(line) {
                Some((h, num)) => {
                    cur_line_no = match to_usize(num.as_slice()) {
                        Some(v) => v,
                        None => if cur_line_no == usize::MAX {
                            0
                        } else {
                            cur_line_no + 1
                        },
                    };
                    cur_hash = Some(h);
                },
                None => {
                    proof {
                        reveal_strlit("author-time ");
                        reveal_strlit("author ");
                    }
                    if starts_with(line, author_time.as_slice()) {
                        let rest = &line[12..line.len()];
                        assert(rest@ =~= line@.skip(12));
                        let (b, e) = trim_range(rest);
                        let num = &rest[b..e];
                        cur_time = match to_i64(num) {
                            Some(v) => v,
                            None => 0,
                        };
                    } else if starts_with(line, author_tag.as_slice()) {
                        let rest = &line[7..line.len()];
                        assert(rest@ =~= line@.skip(7));
                        cur_author = copy_chars(rest);
                    }
                },
            }
        }
        i = i + 1;
    }
    assert(ls.take(lines@.len() as int) =~= ls);
    result
}

// ---------------------------------------------------------------------
// What the other git commands' output becomes
// ---------------------------------------------------------------------

/// The error for a failed `git log`: a message that says "not a git
/// repository" or "fatal" means the directory is not a repository; any
/// other is reported as it stands.
pub open spec fn log_failure_of(stderr: String) -> AppError {
    if occurs_in(stderr@, "not a git repository"@) || occurs_in(stderr@, "fatal"@) {
        AppError::NotAGitRepo
    } else {
        AppError::GitCommandFailed(stderr)
    }
}

/// Classifies the (trimmed) error output of a failed `git log`.
pub fn log_failure(stderr: String) -> (e: AppError)
    ensures
        e == log_failure_of(stderr),
{
    let cs = chars_of(stderr.as_str());
    let not_repo = chars_of("not a git repository");
    let fatal = chars_of("fatal");
    if contains_chars(cs.as_slice(), not_repo.as_slice()) || contains_chars(
        cs.as_slice(),
        fatal.as_slice(),
    ) {
        AppError::NotAGitRepo
    } else {
        AppError::GitCommandFailed(stderr)
    }
}

/// A diff cut to `max_chars` characters, with a note when it was cut.
pub open spec fn diff_shown(s: Seq<char>, max_chars: nat) -> Seq<char> {
    if s.len() > max_chars {
        s.take(max_chars as int) + "\n... (diff truncated)"@
    } else {
        s
    }
}

/// Limits the text of `git show` to `max_chars` characters.
pub fn truncate_diff(s: String, max_chars: usize) -> (r: String)
    ensures
        r@ == diff_shown(s@, max_chars as nat),
{
    let cs = chars_of(s.as_str());
    if cs.len() > max_chars {
        let head = &cs.as_slice()[0..max_chars];
        assert(head@ =~= s@.take(max_chars as int));
        let mut r = string_of(head);
        r.append("\n... (diff truncated)");
        r
    } else {
        s
    }
}

/// The nonempty lines, in order.
pub open spec fn nonempty_lines(ls: Seq<Seq<char>>) -> Seq<Seq<char>>
    decreases ls.len(),
{
    if ls.len() == 0 {
        Seq::empty()
    } else if ls.last().len() == 0 {
        nonempty_lines(ls.drop_last())
    } else {
        nonempty_lines(ls.drop_last()).push(ls.last())
    }
}

/// The branch label of `git branch --contains <hash> --format=%(refname:short)`:
/// nothing without a branch, the branch when there is one, and the first
/// branch with `+1` or `+2` when there are more (at most three are read).
pub open spec fn branch_label_of(raw: Seq<char>) -> Seq<char> {
    let b = nonempty_lines(text_lines(raw));
    let n: nat = if b.len() < 3 { b.len() } else { 3 };
    if n == 0 {
        Seq::empty()
    } else if n == 1 {
        b[0]
    } else {
        b[0] + " +"@ + decimal((n - 1) as nat)
    }
}

/// Reads the branch label out of `git branch --contains` output.
pub fn branch_label(raw: &str) -> (r: String)
    ensures
        r@ == branch_label_of(raw@),
{
    let chars = chars_of(raw);
    let lines = lines_of(chars.as_slice());
    let ghost ls = views_of(lines@);
    let mut count: usize = 0;
    let mut first: usize = 0;
    let mut i: usize = 0;
    assert(ls.take(0) =~= Seq::<Seq<char>>::empty());
    while i < lines.len()
        invariant
            ls == views_of(lines@),
            0 <= i <= lines@.len(),
            count <= i,
            count == nonempty_lines(ls.take(i as int)).len(),
            count > 0 ==> first < lines@.len() && nonempty_lines(ls.take(i as int))[0] == ls[first as int],
        decreases lines@.len() - i,
    {
        assert(ls.take(i + 1).drop_last() =~= ls.take(i as int));
        assert(ls.take(i + 1).last() == ls[i as int]);
        if lines[i].len() > 0 {
            if count == 0 {
                first = i;
            }
            count = count + 1;
        }
        i = i + 1;
    }
    assert(ls.take(lines@.len() as int) =~= ls);
    if count == 0 {
        String::new()
    } else if count == 1 {
        string_of(lines[first].as_slice())
    } else {
        let mut r = string_of(lines[first].as_slice());
        r.append(" +");
        let extra: u64 = if count < 3 {
            count as u64 - 1
        } else {
            2
        };
        let digits = u64_decimal(extra);
        let t = string_of(digits.as_slice());
        r.append(t.as_str());
        r
    }
}
} // verus!
