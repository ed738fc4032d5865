//! The viewer's state: the cache of loaded data, the filtered commit
//! list, selections, scrolling and the blame view, and how keys change
//! them.
use vstd::prelude::*;
use crate::git::{BlameLine, ChangedFile, Commit, CommitView, commit_views};
use crate::matcher::{fuzzy_found, fuzzy_score, lowercase, to_lowercase};
use crate::table::Table;
use crate::text::{chars_of, contains_chars, occurs_in, pop_char, push_char};

verus! {

/// The diff of a commit: being loaded, loaded, or failed with a message.
#[derive(Debug)]
pub enum DiffState {
    Loading,
    Loaded(String),
    Failed(String),
}

/// The branches that contain a commit, as a label.
#[derive(Debug)]
pub enum BranchState {
    Loading,
    Loaded(String),
}

/// The files a commit changed.
#[derive(Debug)]
pub enum ChangedFilesState {
    Loading,
    Loaded(Vec<ChangedFile>),
    Failed(String),
}

/// The blame of a file at a commit.
#[derive(Debug)]
pub enum BlameCacheState {
    Loading,
    Loaded(Vec<BlameLine>),
    Failed(String),
}

/// The result of a load, sent back by the loader.
#[derive(Debug)]
pub enum LoadMsg {
    Diff { hash: String, result: Result<String, String> },
    Branch { hash: String, result: String },
    ChangedFiles { hash: String, result: Result<Vec<ChangedFile>, String> },
    Blame { hash: String, path: String, result: Result<Vec<BlameLine>, String> },
}

/// Everything loaded so far, by commit hash (and file path for blame).
pub struct Cache {
    diffs: Table<String, DiffState>,
    branches: Table<String, BranchState>,
    changed_files: Table<String, ChangedFilesState>,
    blame: Table<(String, String), BlameCacheState>,
}

impl Cache {
    /// The diffs, by hash.
    pub closed spec fn diffs_view(&self) -> Map<Seq<char>, DiffState> {
        self.diffs.as_map()
    }

    /// The branch labels, by hash.
    pub closed spec fn branches_view(&self) -> Map<Seq<char>, BranchState> {
        self.branches.as_map()
    }

    /// The changed files, by hash.
    pub closed spec fn changed_files_view(&self) -> Map<Seq<char>, ChangedFilesState> {
        self.changed_files.as_map()
    }

    /// The blames, by hash and path.
    pub closed spec fn blame_view(&self) -> Map<(Seq<char>, Seq<char>), BlameCacheState> {
        self.blame.as_map()
    }

    /// Each of the cache's maps holds finitely many keys.
    pub proof fn lemma_finite(&self)
        ensures
            self.diffs_view().dom().finite(),
            self.branches_view().dom().finite(),
            self.changed_files_view().dom().finite(),
            self.blame_view().dom().finite(),
    {
        self.diffs.lemma_finite();
        self.branches.lemma_finite();
        self.changed_files.lemma_finite();
        self.blame.lemma_finite();
    }

    /// An empty cache.
    pub fn new() -> (c: Cache)
        ensures
            c.diffs_view() == Map::<Seq<char>, DiffState>::empty(),
            c.branches_view() == Map::<Seq<char>, BranchState>::empty(),
            c.changed_files_view() == Map::<Seq<char>, ChangedFilesState>::empty(),
            c.blame_view() == Map::<(Seq<char>, Seq<char>), BlameCacheState>::empty(),
    {
        Cache {
            diffs: Table::new(),
            branches: Table::new(),
            changed_files: Table::new(),
            blame: Table::new(),
        }
    }

    /// The diff stored for `hash`.
    pub fn diff(&self, hash: &str) -> (r: Option<&DiffState>)
        ensures
            r == (if self.diffs_view().contains_key(hash@) {
                Some(&self.diffs_view()[hash@])
            } else {
                None
            }),
    {
        self.diffs.get(&hash.to_owned())
    }

    /// The branch label stored for `hash`.
    pub fn branch(&self, hash: &str) -> (r: Option<&BranchState>)
        ensures
            r == (if self.branches_view().contains_key(hash@) {
                Some(&self.branches_view()[hash@])
            } else {
                None
            }),
    {
        self.branches.get(&hash.to_owned())
    }

    /// The changed files stored for `hash`.
    pub fn changed_files_for(&self, hash: &str) -> (r: Option<&ChangedFilesState>)
        ensures
            r == (if self.changed_files_view().contains_key(hash@) {
                Some(&self.changed_files_view()[hash@])
            } else {
                None
            }),
    {
        self.changed_files.get(&hash.to_owned())
    }

    /// The blame stored for `path` at `hash`.
    pub fn blame_for(&self, hash: &str, path: &str) -> (r: Option<&BlameCacheState>)
        ensures
            r == (if self.blame_view().contains_key((hash@, path@)) {
                Some(&self.blame_view()[(hash@, path@)])
            } else {
                None
            }),
    {
        self.blame.get(&(hash.to_owned(), path.to_owned()))
    }

    /// Stores the diff of `hash`.
    pub fn insert_diff(&mut self, hash: String, state: DiffState)
        ensures
            final(self).diffs_view() == old(self).diffs_view().insert(hash@, state),
            final(self).branches_view() == old(self).branches_view(),
            final(self).changed_files_view() == old(self).changed_files_view(),
            final(self).blame_view() == old(self).blame_view(),
            final(self).diffs_view().len() == old(self).diffs_view().len() + (if old(self).diffs_view().contains_key(hash@) {
                0int
            } else {
                1int
            }),
    {
        proof {
            self.diffs.lemma_finite();
        }
        self.diffs.insert(hash, state);
    }

    /// Stores the branch label of `hash`.
    pub fn insert_branch(&mut self, hash: String, state: BranchState)
        ensures
            final(self).branches_view() == old(self).branches_view().insert(hash@, state),
            final(self).diffs_view() == old(self).diffs_view(),
            final(self).changed_files_view() == old(self).changed_files_view(),
            final(self).blame_view() == old(self).blame_view(),
            final(self).branches_view().len() == old(self).branches_view().len() + (if old(self).branches_view().contains_key(hash@) {
                0int
            } else {
                1int
            }),
    {
        proof {
            self.branches.lemma_finite();
        }
        self.branches.insert(hash, state);
    }

    /// Stores the changed files of `hash`.
    pub fn insert_changed_files(&mut self, hash: String, state: ChangedFilesState)
        ensures
            final(self).changed_files_view() == old(self).changed_files_view().insert(hash@, state),
            final(self).diffs_view() == old(self).diffs_view(),
            final(self).branches_view() == old(self).branches_view(),
            final(self).blame_view() == old(self).blame_view(),
            final(self).changed_files_view().len() == old(self).changed_files_view().len() + (if old(self).changed_files_view().contains_key(hash@) {
                0int
            } else {
                1int
            }),
    {
        proof {
            self.changed_files.lemma_finite();
        }
        self.changed_files.insert(hash, state);
    }

    /// Stores the blame of `path` at `hash`.
    pub fn insert_blame(&mut self, hash: String, path: String, state: BlameCacheState)
        ensures
            final(self).blame_view() == old(self).blame_view().insert((hash@, path@), state),
            final(self).diffs_view() == old(self).diffs_view(),
            final(self).branches_view() == old(self).branches_view(),
            final(self).changed_files_view() == old(self).changed_files_view(),
            final(self).blame_view().len() == old(self).blame_view().len() + (if old(self).blame_view().contains_key((hash@, path@)) {
                0int
            } else {
                1int
            }),
    {
        proof {
            self.blame.lemma_finite();
        }
        self.blame.insert((hash, path), state);
    }

    /// Stores the result of a load: a success as `Loaded`, a failure as
    /// `Failed` with its message.
    pub fn apply(&mut self, msg: LoadMsg)
        ensures
            match msg {
                LoadMsg::Diff { hash, result } => {
                    &&& final(self).diffs_view() == old(self).diffs_view().insert(
                        hash@,
                        match result {
                            Ok(d) => DiffState::Loaded(d),
                            Err(e) => DiffState::Failed(e),
                        },
                    )
                    &&& final(self).branches_view() == old(self).branches_view()
                    &&& final(self).changed_files_view() == old(self).changed_files_view()
                    &&& final(self).blame_view() == old(self).blame_view()
                },
                LoadMsg::Branch { hash, result } => {
                    &&& final(self).branches_view() == old(self).branches_view().insert(
                        hash@,
                        BranchState::Loaded(result),
                    )
                    &&& final(self).diffs_view() == old(self).diffs_view()
                    &&& final(self).changed_files_view() == old(self).changed_files_view()
                    &&& final(self).blame_view() == old(self).blame_view()
                },
                LoadMsg::ChangedFiles { hash, result } => {
                    &&& final(self).changed_files_view() == old(self).changed_files_view().insert(
                        hash@,
                        match result {
                            Ok(f) => ChangedFilesState::Loaded(f),
                            Err(e) => ChangedFilesState::Failed(e),
                        },
                    )
                    &&& final(self).diffs_view() == old(self).diffs_view()
                    &&& final(self).branches_view() == old(self).branches_view()
                    &&& final(self).blame_view() == old(self).blame_view()
                },
                LoadMsg::Blame { hash, path, result } => {
                    &&& final(self).blame_view() == old(self).blame_view().insert(
                        (hash@, path@),
                        match result {
                            Ok(l) => BlameCacheState::Loaded(l),
                            Err(e) => BlameCacheState::Failed(e),
                        },
                    )
                    &&& final(self).diffs_view() == old(self).diffs_view()
                    &&& final(self).branches_view() == old(self).branches_view()
                    &&& final(self).changed_files_view() == old(self).changed_files_view()
                },
            },
    {
        match msg {
            LoadMsg::Diff { hash, result } => {
                let state = match result {
                    Ok(d) => DiffState::Loaded(d),
                    Err(e) => DiffState::Failed(e),
                };
                self.insert_diff(hash, state);
            },
            LoadMsg::Branch { hash, result } => {
                self.insert_branch(hash, BranchState::Loaded(result));
            },
            LoadMsg::ChangedFiles { hash, result } => {
                let state = match result {
                    Ok(files) => ChangedFilesState::Loaded(files),
                    Err(e) => ChangedFilesState::Failed(e),
                };
                self.insert_changed_files(hash, state);
            },
            LoadMsg::Blame { hash, path, result } => {
                let state = match result {
                    Ok(lines) => BlameCacheState::Loaded(lines),
                    Err(e) => BlameCacheState::Failed(e),
                };
                self.insert_blame(hash, path, state);
            },
        }
    }
}


/// Which pane the keys act on.
#[derive(PartialEq, Eq, Structural, Clone, Copy, Debug)]
pub enum Focus {
    List,
    Files,
    Preview,
}

/// The blame of one file, opened from the changed-files pane.
#[derive(Debug)]
pub struct BlameView {
    pub commit_hash: String,
    pub file_path: String,
    pub selected_line: usize,
    pub scroll_offset: u16,
}

/// The scroll offset that keeps the selected blamed line in a window of
/// `height` rows, and the last page full: unchanged for a window without
/// rows.
pub open spec fn fitted_offset(sel: usize, off: u16, height: usize, total: usize) -> u16 {
    if height == 0 {
        off
    } else {
        let moved: u16 = if sel < off {
            sel as u16
        } else if sel >= off + height {
            (sel + 1 - height) as u16
        } else {
            off
        };
        let max_off: u16 = (if total >= height {
            total - height
        } else {
            0
        }) as u16;
        if moved > max_off {
            max_off
        } else {
            moved
        }
    }
}

impl BlameView {
    /// Scrolls so that the selected line shows in a window of
    /// `inner_height` rows over `total_lines` lines.
    pub fn fit_scroll(&mut self, inner_height: usize, total_lines: usize)
        ensures
            final(self).commit_hash == old(self).commit_hash,
            final(self).file_path == old(self).file_path,
            final(self).selected_line == old(self).selected_line,
            final(self).scroll_offset == fitted_offset(
                old(self).selected_line,
                old(self).scroll_offset,
                inner_height,
                total_lines,
            ),
    {
        if inner_height == 0 {
            return;
        }
        let sel = self.selected_line;
        let off = self.scroll_offset as usize;
        if sel < off {
            self.scroll_offset = sel as u16;
        } else if sel - off >= inner_height {
            self.scroll_offset = (sel - inner_height + 1) as u16;
        }
        let max_off = (if total_lines >= inner_height {
            total_lines - inner_height
        } else {
            0
        }) as u16;
        if self.scroll_offset > max_off {
            self.scroll_offset = max_off;
        }
    }
}

/// Work for the loader: what to load, for which commit (and file).
#[derive(Debug)]
pub enum LoadRequest {
    Diff(String),
    Branch(String),
    ChangedFiles(String),
    Blame(String, String),
}

/// The keys the viewer reacts to.
#[derive(PartialEq, Eq, Structural, Clone, Copy, Debug)]
pub enum Key {
    Esc,
    Tab,
    Up,
    Down,
    PageUp,
    PageDown,
    Char(char),
    Backspace,
    Enter,
    Other,
}

/// What the event loop has to do after a key.
#[derive(Debug)]
pub enum KeyAction {
    /// Nothing more: draw again.
    Continue,
    /// Leave the viewer.
    Quit,
    /// Start these loads, then draw again.
    Load(Vec<LoadRequest>),
    /// Copy this hash to the clipboard, then report with `record_copy`.
    Copy(String),
}

/// The state of the viewer.
pub struct App {
    pub commits: Vec<Commit>,
    /// Indices into `commits` of the commits that match the query.
    pub filtered: Vec<usize>,
    pub diff_char_limit: usize,
    /// The selected row of the commit list.
    pub list_selected: Option<usize>,
    /// The selected row of the changed-files list.
    pub files_selected: Option<usize>,
    pub query: String,
    pub diff_scroll: u16,
    pub status: String,
    pub focus: Focus,
    pub cache: Cache,
    pub blame_view: Option<BlameView>,
}

/// Whether a commit matches the query: every commit matches the empty
/// query; `@name` matches commits whose author contains `name`, ignoring
/// case; any other query is fuzzy-matched against `subject author`.
pub open spec fn commit_matches(c: CommitView, q: Seq<char>) -> bool {
    if q.len() == 0 {
        true
    } else if q[0] == '@' {
        occurs_in(lowercase(c.author), lowercase(q.drop_first()))
    } else {
        fuzzy_found(c.subject + " "@ + c.author, q)
    }
}

/// The indices, in order, of the commits that match the query.
pub open spec fn matching_indices(cs: Seq<CommitView>, q: Seq<char>) -> Seq<usize>
    decreases cs.len(),
{
    if cs.len() == 0 {
        Seq::empty()
    } else {
        let prev = matching_indices(cs.drop_last(), q);
        if commit_matches(cs.last(), q) {
            prev.push((cs.len() - 1) as usize)
        } else {
            prev
        }
    }
}

/// The next pane in Tab order.
pub open spec fn next_focus(f: Focus) -> Focus {
    match f {
        Focus::List => Focus::Files,
        Focus::Files => Focus::Preview,
        Focus::Preview => Focus::List,
    }
}

/// The commit list, the query and the selection are the same.
pub open spec fn same_list(a: App, b: App) -> bool {
    &&& b.commits == a.commits
    &&& b.filtered == a.filtered
    &&& b.diff_char_limit == a.diff_char_limit
    &&& b.list_selected == a.list_selected
    &&& b.query == a.query
}

/// The panes' positions are the same.
pub open spec fn same_panes(a: App, b: App) -> bool {
    &&& b.files_selected == a.files_selected
    &&& b.diff_scroll == a.diff_scroll
    &&& b.blame_view == a.blame_view
}

/// The status line, focus and cache are the same.
pub open spec fn same_rest(a: App, b: App) -> bool {
    &&& b.status == a.status
    &&& b.focus == a.focus
    &&& b.cache == a.cache
}

/// What a change of the selected commit resets: the diff scroll, the file
/// selection and any open blame.
pub open spec fn commit_changed(b: App) -> bool {
    &&& b.diff_scroll == 0
    &&& b.files_selected == Some(0usize)
    &&& b.blame_view is None
}

/// `update_filter`: the commits that match the query, the first selected.
pub open spec fn filter_applied(a: App, b: App) -> bool {
    &&& b.commits == a.commits
    &&& b.diff_char_limit == a.diff_char_limit
    &&& b.query == a.query
    &&& same_rest(a, b)
    &&& b.filtered@ == matching_indices(commit_views(a.commits@), a.query@)
    &&& b.list_selected == (if b.filtered@.len() == 0 {
        None
    } else {
        Some(0usize)
    })
    &&& commit_changed(b)
}

/// The selection after one step up.
pub open spec fn selection_up(sel: Option<usize>) -> Option<usize> {
    match sel {
        Some(s) => if s > 0 {
            Some((s - 1) as usize)
        } else {
            Some(s)
        },
        None => None,
    }
}

/// The selection after one step down in a list of `len` rows.
pub open spec fn selection_down(sel: Option<usize>, len: nat) -> Option<usize> {
    match sel {
        Some(s) => if s + 1 < len {
            Some((s + 1) as usize)
        } else {
            Some(s)
        },
        None => None,
    }
}

/// `move_up`.
pub open spec fn moved_up(a: App, b: App) -> bool {
    &&& b.commits == a.commits
    &&& b.filtered == a.filtered
    &&& b.diff_char_limit == a.diff_char_limit
    &&& b.query == a.query
    &&& same_rest(a, b)
    &&& b.list_selected == selection_up(a.list_selected)
    &&& commit_changed(b)
}

/// `move_down`.
pub open spec fn moved_down(a: App, b: App) -> bool {
    &&& b.commits == a.commits
    &&& b.filtered == a.filtered
    &&& b.diff_char_limit == a.diff_char_limit
    &&& b.query == a.query
    &&& same_rest(a, b)
    &&& b.list_selected == selection_down(a.list_selected, a.filtered@.len())
    &&& commit_changed(b)
}

/// Only the diff scroll changed, to `scroll`.
pub open spec fn scrolled_to(a: App, b: App, scroll: u16) -> bool {
    &&& same_list(a, b)
    &&& same_rest(a, b)
    &&& b.files_selected == a.files_selected
    &&& b.blame_view == a.blame_view
    &&& b.diff_scroll == scroll
}

/// The diff scroll three lines further, saturating.
pub open spec fn scroll_down_of(s: u16) -> u16 {
    if s + 3 > u16::MAX {
        u16::MAX
    } else {
        (s + 3) as u16
    }
}

/// The diff scroll three lines back, saturating.
pub open spec fn scroll_up_of(s: u16) -> u16 {
    if s < 3 {
        0
    } else {
        (s - 3) as u16
    }
}

/// Only the file selection changed, to `sel`.
pub open spec fn file_selected(a: App, b: App, sel: Option<usize>) -> bool {
    &&& same_list(a, b)
    &&& same_rest(a, b)
    &&& b.diff_scroll == a.diff_scroll
    &&& b.blame_view == a.blame_view
    &&& b.files_selected == sel
}

/// Only the blame view changed, to `bv`.
pub open spec fn blame_set(a: App, b: App, bv: Option<BlameView>) -> bool {
    &&& same_list(a, b)
    &&& same_rest(a, b)
    &&& b.diff_scroll == a.diff_scroll
    &&& b.files_selected == a.files_selected
    &&& b.blame_view == bv
}

/// The blame view with another selected line.
pub open spec fn with_line(bv: Option<BlameView>, line: usize) -> Option<BlameView> {
    match bv {
        Some(v) => Some(
            BlameView {
                commit_hash: v.commit_hash,
                file_path: v.file_path,
                selected_line: line,
                scroll_offset: v.scroll_offset,
            },
        ),
        None => None,
    }
}

/// The index of the selected commit, when the selection points at one.
pub open spec fn selected_index(a: App) -> Option<int> {
    match a.list_selected {
        Some(s) => if s < a.filtered@.len() && a.filtered@[s as int] < a.commits@.len() {
            Some(a.filtered@[s as int] as int)
        } else {
            None
        },
        None => None,
    }
}

/// The changed files loaded for the selected commit.
pub open spec fn selected_files(a: App) -> Option<Vec<ChangedFile>> {
    match selected_index(a) {
        Some(i) => {
            let h = a.commits@[i].hash@;
            if a.cache.changed_files_view().contains_key(h) {
                match a.cache.changed_files_view()[h] {
                    ChangedFilesState::Loaded(files) => Some(files),
                    _ => None,
                }
            } else {
                None
            }
        },
        None => None,
    }
}

/// How many changed files the selected commit has loaded (0 if none).
pub open spec fn files_len(a: App) -> nat {
    match selected_files(a) {
        Some(files) => files@.len(),
        None => 0,
    }
}

/// How many blamed lines the open blame has loaded (0 if none).
pub open spec fn blame_len(a: App) -> nat {
    match a.blame_view {
        Some(bv) => {
            let k = (bv.commit_hash@, bv.file_path@);
            if a.cache.blame_view().contains_key(k) {
                match a.cache.blame_view()[k] {
                    BlameCacheState::Loaded(lines) => lines@.len(),
                    _ => 0,
                }
            } else {
                0
            }
        },
        None => 0,
    }
}

/// Everything but the cache is the same.
pub open spec fn same_but_cache(a: App, b: App) -> bool {
    &&& same_list(a, b)
    &&& same_panes(a, b)
    &&& b.status == a.status
    &&& b.focus == a.focus
}

/// A cache map with `k` marked loading unless it holds something already.
pub open spec fn mark_loading<V>(m: Map<Seq<char>, V>, k: Seq<char>, loading: V) -> Map<Seq<char>, V> {
    if m.contains_key(k) {
        m
    } else {
        m.insert(k, loading)
    }
}

/// The load request if the map lacks the key, else nothing.
pub open spec fn request_if_missing<V>(m: Map<Seq<char>, V>, k: Seq<char>, r: LoadRequest) -> Seq<LoadRequest> {
    if m.contains_key(k) {
        Seq::empty()
    } else {
        seq![r]
    }
}

/// `begin_loads`: for the selected commit, every kind of data not in the
/// cache is marked loading and requested (diff, branches, changed files).
pub open spec fn loads_begun(a: App, b: App, reqs: Seq<LoadRequest>) -> bool {
    match selected_index(a) {
        None => b == a && reqs.len() == 0,
        Some(i) => {
            let h = a.commits@[i].hash;
            &&& same_but_cache(a, b)
            &&& b.cache.diffs_view() == mark_loading(a.cache.diffs_view(), h@, DiffState::Loading)
            &&& b.cache.branches_view() == mark_loading(
                a.cache.branches_view(),
                h@,
                BranchState::Loading,
            )
            &&& b.cache.changed_files_view() == mark_loading(
                a.cache.changed_files_view(),
                h@,
                ChangedFilesState::Loading,
            )
            &&& b.cache.blame_view() == a.cache.blame_view()
            &&& reqs == request_if_missing(a.cache.diffs_view(), h@, LoadRequest::Diff(h))
                + request_if_missing(a.cache.branches_view(), h@, LoadRequest::Branch(h))
                + request_if_missing(
                a.cache.changed_files_view(),
                h@,
                LoadRequest::ChangedFiles(h),
            )
        },
    }
}

/// `begin_blame_load`: the blame of `(h, p)` is marked loading and
/// requested unless the cache holds it.
pub open spec fn blame_load_begun(a: App, b: App, h: Seq<char>, p: Seq<char>, started: bool) -> bool {
    &&& same_but_cache(a, b)
    &&& b.cache.diffs_view() == a.cache.diffs_view()
    &&& b.cache.branches_view() == a.cache.branches_view()
    &&& b.cache.changed_files_view() == a.cache.changed_files_view()
    &&& started == !a.cache.blame_view().contains_key((h, p))
    &&& b.cache.blame_view() == (if started {
        a.cache.blame_view().insert((h, p), BlameCacheState::Loading)
    } else {
        a.cache.blame_view()
    })
}

/// Only the query changed, to `q`.
pub open spec fn query_set(a: App, b: App, q: Seq<char>) -> bool {
    &&& b.commits == a.commits
    &&& b.filtered == a.filtered
    &&& b.diff_char_limit == a.diff_char_limit
    &&& b.list_selected == a.list_selected
    &&& same_panes(a, b)
    &&& same_rest(a, b)
    &&& b.query@ == q
}

/// `move_file_down`: with files loaded, the next file (or the last stays).
pub open spec fn file_moved_down(a: App, b: App) -> bool {
    let len = files_len(a);
    let sel = match a.files_selected {
        Some(s) => s,
        None => 0usize,
    };
    if len == 0 {
        b == a
    } else {
        file_selected(a, b, if sel + 1 < len { Some((sel + 1) as usize) } else { Some(sel) })
    }
}

/// `move_file_up`: the previous file (or the first stays).
pub open spec fn file_moved_up(a: App, b: App) -> bool {
    let sel = match a.files_selected {
        Some(s) => s,
        None => 0usize,
    };
    file_selected(a, b, if sel > 0 { Some((sel - 1) as usize) } else { Some(0usize) })
}

/// `blame_move_down`: the next blamed line, if there is one.
pub open spec fn blame_moved_down(a: App, b: App) -> bool {
    match a.blame_view {
        Some(bv) => if bv.selected_line + 1 < blame_len(a) {
            blame_set(a, b, with_line(a.blame_view, (bv.selected_line + 1) as usize))
        } else {
            b == a
        },
        None => b == a,
    }
}

/// `blame_move_up`: the previous blamed line, if there is one.
pub open spec fn blame_moved_up(a: App, b: App) -> bool {
    match a.blame_view {
        Some(bv) => if bv.selected_line > 0 {
            blame_set(a, b, with_line(a.blame_view, (bv.selected_line - 1) as usize))
        } else {
            b == a
        },
        None => b == a,
    }
}

/// The selected changed file.
pub open spec fn selected_file(a: App) -> Option<ChangedFile> {
    match (selected_files(a), a.files_selected) {
        (Some(files), Some(k)) => if k < files@.len() {
            Some(files@[k as int])
        } else {
            None
        },
        _ => None,
    }
}

/// `open_blame`: the blame of `p` at `h` is open in the focused preview.
pub open spec fn blame_opened(a: App, b: App, h: String, p: String) -> bool {
    &&& same_list(a, b)
    &&& b.files_selected == a.files_selected
    &&& b.diff_scroll == a.diff_scroll
    &&& b.status == a.status
    &&& b.cache == a.cache
    &&& b.focus == Focus::Preview
    &&& b.blame_view == Some(BlameView { commit_hash: h, file_path: p, selected_line: 0, scroll_offset: 0 })
}

/// Only the focus changed, to the next pane.
pub open spec fn focus_cycled(a: App, b: App) -> bool {
    &&& same_list(a, b)
    &&& same_panes(a, b)
    &&& b.status == a.status
    &&& b.cache == a.cache
    &&& b.focus == next_focus(a.focus)
}

/// The query and the list after editing the query to `q`: the commits
/// refiltered and the loads begun for the newly selected commit.
pub open spec fn query_edited(a: App, b: App, q: Seq<char>, act: KeyAction) -> bool {
    act matches KeyAction::Load(reqs) && exists|m1: App, m2: App|
        query_set(a, m1, q) && #[trigger] filter_applied(m1, m2) && loads_begun(m2, b, reqs@)
}

/// What a key does, by key and focused pane.
pub open spec fn key_handled(a: App, b: App, key: Key, act: KeyAction) -> bool {
    match key {
        Key::Esc => if a.blame_view is Some {
            blame_set(a, b, None) && act is Continue
        } else {
            b == a && act is Quit
        },
        Key::Tab => focus_cycled(a, b) && act is Continue,
        Key::Up => match a.focus {
            Focus::List => act matches KeyAction::Load(reqs) && exists|m: App|
                #[trigger] moved_up(a, m) && loads_begun(m, b, reqs@),
            Focus::Files => file_moved_up(a, b) && act is Continue,
            Focus::Preview => act is Continue && if a.blame_view is Some {
                blame_moved_up(a, b)
            } else {
                scrolled_to(a, b, scroll_up_of(a.diff_scroll))
            },
        },
        Key::Down => match a.focus {
            Focus::List => act matches KeyAction::Load(reqs) && exists|m: App|
                #[trigger] moved_down(a, m) && loads_begun(m, b, reqs@),
            Focus::Files => file_moved_down(a, b) && act is Continue,
            Focus::Preview => act is Continue && if a.blame_view is Some {
                blame_moved_down(a, b)
            } else {
                scrolled_to(a, b, scroll_down_of(a.diff_scroll))
            },
        },
        Key::PageDown => act is Continue && if a.focus == Focus::Preview && a.blame_view is None {
            scrolled_to(a, b, scroll_down_of(a.diff_scroll))
        } else {
            b == a
        },
        Key::PageUp => act is Continue && if a.focus == Focus::Preview && a.blame_view is None {
            scrolled_to(a, b, scroll_up_of(a.diff_scroll))
        } else {
            b == a
        },
        Key::Char(c) => match a.focus {
            Focus::List => query_edited(a, b, a.query@.push(c), act),
            Focus::Files => if c == 'j' {
                file_moved_down(a, b) && act is Continue
            } else if c == 'k' {
                file_moved_up(a, b) && act is Continue
            } else if c == 'b' {
                match (selected_index(a), selected_file(a)) {
                    (Some(i), Some(f)) => {
                        let h = a.commits@[i].hash;
                        let started = !a.cache.blame_view().contains_key((h@, f.path@));
                        &&& exists|m: App|
                            #[trigger] blame_opened(a, m, h, f.path) && blame_load_begun(
                                m,
                                b,
                                h@,
                                f.path@,
                                started,
                            )
                        &&& if started {
                            act matches KeyAction::Load(reqs) && reqs@ == seq![
                                LoadRequest::Blame(h, f.path),
                            ]
                        } else {
                            act is Continue
                        }
                    },
                    _ => b == a && act is Continue,
                }
            } else {
                b == a && act is Continue
            },
            Focus::Preview => act is Continue && if c == 'j' {
                if a.blame_view is Some {
                    blame_moved_down(a, b)
                } else {
                    scrolled_to(a, b, scroll_down_of(a.diff_scroll))
                }
            } else if c == 'k' {
                if a.blame_view is Some {
                    blame_moved_up(a, b)
                } else {
                    scrolled_to(a, b, scroll_up_of(a.diff_scroll))
                }
            } else {
                b == a
            },
        },
        Key::Backspace => if a.focus == Focus::List {
            query_edited(
                a,
                b,
                if a.query@.len() == 0 {
                    a.query@
                } else {
                    a.query@.drop_last()
                },
                act,
            )
        } else {
            b == a && act is Continue
        },
        Key::Enter => b == a && match selected_index(a) {
            Some(i) => act == KeyAction::Copy(a.commits@[i].hash),
            None => act is Continue,
        },
        Key::Other => b == a && act is Continue,
    }
}

impl App {
    /// The invariant of the selection: the filtered indices point into the
    /// commits in increasing order, and a selected row exists.
    pub open spec fn wf(&self) -> bool {
        &&& forall|i: int| 0 <= i < self.filtered@.len() ==> #[trigger] self.filtered@[i] < self.commits@.len()
        &&& forall|i: int, j: int|
            0 <= i < j < self.filtered@.len() ==> self.filtered@[i] < self.filtered@[j]
        &&& (self.list_selected matches Some(s) ==> s < self.filtered@.len())
    }

    /// A viewer of `commits`, all of them listed and the first selected.
    pub fn new(commits: Vec<Commit>, diff_char_limit: usize) -> (app: App)
        ensures
            app.wf(),
            app.commits == commits,
            app.filtered@ == Seq::new(commits@.len(), |i: int| i as usize),
            app.diff_char_limit == diff_char_limit,
            app.list_selected == (if commits@.len() == 0 {
                None
            } else {
                Some(0usize)
            }),
            app.files_selected == Some(0usize),
            app.query@ == Seq::<char>::empty(),
            app.diff_scroll == 0,
            app.status@ == Seq::<char>::empty(),
            app.focus == Focus::List,
            app.cache.diffs_view() == Map::<Seq<char>, DiffState>::empty(),
            app.cache.branches_view() == Map::<Seq<char>, BranchState>::empty(),
            app.cache.changed_files_view() == Map::<Seq<char>, ChangedFilesState>::empty(),
            app.cache.blame_view() == Map::<(Seq<char>, Seq<char>), BlameCacheState>::empty(),
            app.blame_view is None,
    {
        let n = commits.len();
        let mut filtered: Vec<usize> = Vec::new();
        let mut i: usize = 0;
        while i < n
            invariant
                0 <= i <= n,
                filtered@ == Seq::new(i as nat, |k: int| k as usize),
            decreases n - i,
        {
            filtered.push(i);
            i = i + 1;
            assert(filtered@ =~= Seq::new(i as nat, |k: int| k as usize));
        }
        let list_selected = if n > 0 {
            Some(0)
        } else {
            None
        };
        App {
            commits,
            filtered,
            diff_char_limit,
            list_selected,
            files_selected: Some(0),
            query: String::new(),
            diff_scroll: 0,
            status: String::new(),
            focus: Focus::List,
            cache: Cache::new(),
            blame_view: None,
        }
    }

    /// Refilters the commits by the query and selects the first match.
    pub fn update_filter(&mut self)
        ensures
            filter_applied(*old(self), *final(self)),
            final(self).wf(),
    {
        let q = chars_of(self.query.as_str());
        let by_author = q.len() > 0 && q[0] == '@';
        let author_query: Vec<char> = if by_author {
            let rest = crate::text::string_of(&q.as_slice()[1..q.len()]);
            let lowered = to_lowercase(rest.as_str());
            chars_of(lowered.as_str())
        } else {
            Vec::new()
        };
        assert(by_author ==> q@.subrange(1, q@.len() as int) =~= q@.drop_first());
        let ghost cs = commit_views(self.commits@);
        let n = self.commits.len();
        let mut out: Vec<usize> = Vec::new();
        let mut i: usize = 0;
        assert(cs.take(0) =~= Seq::<CommitView>::empty());
        while i < n
            invariant
                n == self.commits@.len(),
                cs == commit_views(self.commits@),
                q@ == self.query@,
                by_author == (q@.len() > 0 && q@[0] == '@'),
                by_author ==> author_query@ == lowercase(q@.drop_first()),
                0 <= i <= n,
                out@ == matching_indices(cs.take(i as int), self.query@),
                forall|k: int| 0 <= k < out@.len() ==> #[trigger] out@[k] < i,
                forall|k: int, l: int| 0 <= k < l < out@.len() ==> out@[k] < out@[l],
            decreases n - i,
        {
            let c = &self.commits[i];
            assert(cs[i as int] == c@);
            let m = if q.len() == 0 {
                true
            } else if by_author {
                let la = to_lowercase(c.author.as_str());
                let lac = chars_of(la.as_str());
                contains_chars(lac.as_slice(), author_query.as_slice())
            } else {
                let mut hay = c.subject.clone();
                hay.append(" ");
                hay.append(c.author.as_str());
                fuzzy_score(hay.as_str(), self.query.as_str()).is_some()
            };
            assert(m == commit_matches(cs[i as int], self.query@));
            assert(cs.take(i + 1).drop_last() =~= cs.take(i as int));
            assert(cs.take(i + 1).last() == cs[i as int]);
            if m {
                out.push(i);
            }
            i = i + 1;
        }
        assert(cs.take(n as int) =~= cs);
        self.filtered = out;
        if self.filtered.len() == 0 {
            self.list_selected = None;
        } else {
            self.list_selected = Some(0);
        }
        self.diff_scroll = 0;
        self.on_commit_changed();
    }

    /// The selected commit.
    pub fn selected_commit(&self) -> (r: Option<&Commit>)
        ensures
            r == (match selected_index(*self) {
                Some(i) => Some(&self.commits@[i]),
                None => None,
            }),
    {
        let sel = match self.list_selected {
            Some(s) => s,
            None => return None,
        };
        if sel >= self.filtered.len() {
            return None;
        }
        let idx = self.filtered[sel];
        if idx >= self.commits.len() {
            return None;
        }
        Some(&self.commits[idx])
    }

    /// The hash of the selected commit.
    pub fn selected_hash(&self) -> (r: Option<String>)
        ensures
            r == (match selected_index(*self) {
                Some(i) => Some(self.commits@[i].hash),
                None => None,
            }),
    {
        match self.selected_commit() {
            Some(c) => Some(c.hash.clone()),
            None => None,
        }
    }

    /// Selects the commit above, if any.
    pub fn move_up(&mut self)
        ensures
            moved_up(*old(self), *final(self)),
            old(self).wf() ==> final(self).wf(),
    {
        match self.list_selected {
            Some(sel) => {
                if sel > 0 {
                    self.list_selected = Some(sel - 1);
                }
            },
            None => {},
        }
        self.diff_scroll = 0;
        self.on_commit_changed();
    }

    /// Selects the commit below, if any.
    pub fn move_down(&mut self)
        ensures
            moved_down(*old(self), *final(self)),
            old(self).wf() ==> final(self).wf(),
    {
        match self.list_selected {
            Some(sel) => {
                let len = self.filtered.len();
                if len > 0 && sel < len - 1 {
                    self.list_selected = Some(sel + 1);
                }
            },
            None => {},
        }
        self.diff_scroll = 0;
        self.on_commit_changed();
    }

    /// A new commit is selected: back to its first file, blame closed.
    fn on_commit_changed(&mut self)
        ensures
            final(self).files_selected == Some(0usize),
            final(self).blame_view is None,
            same_list(*old(self), *final(self)),
            same_rest(*old(self), *final(self)),
            final(self).diff_scroll == old(self).diff_scroll,
    {
        self.files_selected = Some(0);
        self.blame_view = None;
    }

    /// Scrolls the diff three lines down.
    pub fn scroll_diff_down(&mut self)
        ensures
            scrolled_to(*old(self), *final(self), scroll_down_of(old(self).diff_scroll)),
            old(self).wf() ==> final(self).wf(),
    {
        self.diff_scroll = self.diff_scroll.saturating_add(3);
    }

    /// Scrolls the diff three lines up.
    pub fn scroll_diff_up(&mut self)
        ensures
            scrolled_to(*old(self), *final(self), scroll_up_of(old(self).diff_scroll)),
            old(self).wf() ==> final(self).wf(),
    {
        self.diff_scroll = self.diff_scroll.saturating_sub(3);
    }

    /// The changed files loaded for the selected commit.
    fn loaded_files(&self) -> (r: Option<&Vec<ChangedFile>>)
        ensures
            r == (match selected_files(*self) {
                Some(f) => Some(&f),
                None => None,
            }),
    {
        let hash = match self.selected_hash() {
            Some(h) => h,
            None => return None,
        };
        match self.cache.changed_files_for(hash.as_str()) {
            Some(ChangedFilesState::Loaded(files)) => Some(files),
            _ => None,
        }
    }

    /// How many changed files the selected commit has (0 until loaded).
    pub fn changed_files_len(&self) -> (r: usize)
        ensures
            r == files_len(*self),
    {
        match self.loaded_files() {
            Some(files) => files.len(),
            None => 0,
        }
    }

    /// The selected changed file.
    pub fn selected_changed_file(&self) -> (r: Option<&ChangedFile>)
        ensures
            r == (match selected_file(*self) {
                Some(f) => Some(&f),
                None => None,
            }),
    {
        let files = match self.loaded_files() {
            Some(f) => f,
            None => return None,
        };
        let k = match self.files_selected {
            Some(k) => k,
            None => return None,
        };
        if k < files.len() {
            Some(&files[k])
        } else {
            None
        }
    }

    /// Selects the next changed file, if any.
    pub fn move_file_down(&mut self)
        ensures
            file_moved_down(*old(self), *final(self)),
            old(self).wf() ==> final(self).wf(),
    {
        let len = self.changed_files_len();
        if len == 0 {
            return;
        }
        let sel = match self.files_selected {
            Some(s) => s,
            None => 0,
        };
        if sel < len - 1 {
            self.files_selected = Some(sel + 1);
        } else {
            self.files_selected = Some(sel);
        }
    }

    /// Selects the previous changed file, if any.
    pub fn move_file_up(&mut self)
        ensures
            file_moved_up(*old(self), *final(self)),
            old(self).wf() ==> final(self).wf(),
    {
        let sel = match self.files_selected {
            Some(s) => s,
            None => 0,
        };
        if sel > 0 {
            self.files_selected = Some(sel - 1);
        } else {
            self.files_selected = Some(0);
        }
    }

    /// Opens the blame of `file_path` at `commit_hash` in the preview pane.
    pub fn open_blame(&mut self, commit_hash: String, file_path: String)
        ensures
            blame_opened(*old(self), *final(self), commit_hash, file_path),
            old(self).wf() ==> final(self).wf(),
    {
        self.blame_view = Some(BlameView { commit_hash, file_path, selected_line: 0, scroll_offset: 0 });
        self.focus = Focus::Preview;
    }

    /// Closes the blame view.
    pub fn close_blame(&mut self)
        ensures
            blame_set(*old(self), *final(self), None),
            old(self).wf() ==> final(self).wf(),
    {
        self.blame_view = None;
    }

    /// How many lines the open blame has (0 until loaded).
    pub fn blame_line_count(&self) -> (r: usize)
        ensures
            r == blame_len(*self),
    {
        match &self.blame_view {
            Some(bv) => match self.cache.blame_for(bv.commit_hash.as_str(), bv.file_path.as_str()) {
                Some(BlameCacheState::Loaded(lines)) => lines.len(),
                _ => 0,
            },
            None => 0,
        }
    }

    /// Selects the next blamed line, if any.
    pub fn blame_move_down(&mut self)
        ensures
            blame_moved_down(*old(self), *final(self)),
            old(self).wf() ==> final(self).wf(),
    {
        let total = self.blame_line_count();
        match &mut self.blame_view {
            Some(bv) => {
                if total > 0 && bv.selected_line < total - 1 {
                    bv.selected_line = bv.selected_line + 1;
                }
            },
            None => {},
        }
    }

    /// Selects the previous blamed line, if any.
    pub fn blame_move_up(&mut self)
        ensures
            blame_moved_up(*old(self), *final(self)),
            old(self).wf() ==> final(self).wf(),
    {
        match &mut self.blame_view {
            Some(bv) => {
                if bv.selected_line > 0 {
                    bv.selected_line = bv.selected_line - 1;
                }
            },
            None => {},
        }
    }

    /// Starts loading what the cache lacks for the selected commit: each
    /// missing diff, branch label and changed-files list is marked loading
    /// and returned as a request for the loader.
    pub fn begin_loads(&mut self) -> (reqs: Vec<LoadRequest>)
        ensures
            loads_begun(*old(self), *final(self), reqs@),
            old(self).wf() ==> final(self).wf(),
    {
        let hash = match self.selected_hash() {
            Some(h) => h,
            None => return Vec::new(),
        };
        let ghost a = *self;
        let mut reqs: Vec<LoadRequest> = Vec::new();
        if self.cache.diff(hash.as_str()).is_none() {
            self.cache.insert_diff(hash.clone(), DiffState::Loading);
            reqs.push(LoadRequest::Diff(hash.clone()));
        }
        let ghost r1 = reqs@;
        if self.cache.branch(hash.as_str()).is_none() {
            self.cache.insert_branch(hash.clone(), BranchState::Loading);
            reqs.push(LoadRequest::Branch(hash.clone()));
        }
        let ghost r2 = reqs@;
        if self.cache.changed_files_for(hash.as_str()).is_none() {
            self.cache.insert_changed_files(hash.clone(), ChangedFilesState::Loading);
            reqs.push(LoadRequest::ChangedFiles(hash.clone()));
        }
        proof {
            let h = hash;
            assert(r1 =~= request_if_missing(a.cache.diffs_view(), h@, LoadRequest::Diff(h)));
            assert(r2 =~= r1 + request_if_missing(a.cache.branches_view(), h@, LoadRequest::Branch(h)));
            assert(reqs@ =~= r2 + request_if_missing(
                a.cache.changed_files_view(),
                h@,
                LoadRequest::ChangedFiles(h),
            ));
        }
        reqs
    }

    /// Starts loading the blame of `path` at `hash` unless the cache holds
    /// it; whether it started.
    pub fn begin_blame_load(&mut self, hash: &str, path: &str) -> (started: bool)
        ensures
            blame_load_begun(*old(self), *final(self), hash@, path@, started),
            old(self).wf() ==> final(self).wf(),
    {
        if self.cache.blame_for(hash, path).is_some() {
            return false;
        }
        self.cache.insert_blame(hash.to_owned(), path.to_owned(), BlameCacheState::Loading);
        true
    }

    /// Reports on the status line whether the hash was copied.
    pub fn record_copy(&mut self, hash: &str, copied: bool)
        ensures
            same_list(*old(self), *final(self)),
            same_panes(*old(self), *final(self)),
            final(self).focus == old(self).focus,
            final(self).cache == old(self).cache,
            old(self).wf() ==> final(self).wf(),
            final(self).status@ == (if copied {
                "Copied: "@ + hash@
            } else {
                "Failed to copy"@
            }),
    {
        if copied {
            let mut s = "Copied: ".to_owned();
            s.append(hash);
            self.status = s;
        } else {
            self.status = "Failed to copy".to_owned();
        }
    }

    /// Reacts to a key: moves, filters, scrolls or opens the blame in the
    /// focused pane, and says what the event loop must do next.
    pub fn handle_key(&mut self, key: Key) -> (act: KeyAction)
        ensures
            key_handled(*old(self), *final(self), key, act),
            old(self).wf() ==> final(self).wf(),
    {
        let ghost a = *self;
        let focus = self.focus;
        match key {
            Key::Esc => {
                if self.blame_view.is_some() {
                    self.close_blame();
                    KeyAction::Continue
                } else {
                    KeyAction::Quit
                }
            },
            Key::Tab => {
                self.focus = match focus {
                    Focus::List => Focus::Files,
                    Focus::Files => Focus::Preview,
                    Focus::Preview => Focus::List,
                };
                KeyAction::Continue
            },
            Key::Up => match focus {
                Focus::List => {
                    self.move_up();
                    let ghost m = *self;
                    let reqs = self.begin_loads();
                    assert(moved_up(a, m) && loads_begun(m, *self, reqs@));
                    KeyAction::Load(reqs)
                },
                Focus::Files => {
                    self.move_file_up();
                    KeyAction::Continue
                },
                Focus::Preview => {
                    if self.blame_view.is_some() {
                        self.blame_move_up();
                    } else {
                        self.scroll_diff_up();
                    }
                    KeyAction::Continue
                },
            },
            Key::Down => match focus {
                Focus::List => {
                    self.move_down();
                    let ghost m = *self;
                    let reqs = self.begin_loads();
                    assert(moved_down(a, m) && loads_begun(m, *self, reqs@));
                    KeyAction::Load(reqs)
                },
                Focus::Files => {
                    self.move_file_down();
                    KeyAction::Continue
                },
                Focus::Preview => {
                    if self.blame_view.is_some() {
                        self.blame_move_down();
                    } else {
                        self.scroll_diff_down();
                    }
                    KeyAction::Continue
                },
            },
            Key::PageDown => {
                if focus == Focus::Preview && self.blame_view.is_none() {
                    self.scroll_diff_down();
                }
                KeyAction::Continue
            },
            Key::PageUp => {
                if focus == Focus::Preview && self.blame_view.is_none() {
                    self.scroll_diff_up();
                }
                KeyAction::Continue
            },
            Key::Char(c) => match focus {
                Focus::List => {
                    push_char(&mut self.query, c);
                    let ghost m1 = *self;
                    self.update_filter();
                    let ghost m2 = *self;
                    let reqs = self.begin_loads();
                    assert(query_set(a, m1, a.query@.push(c)) && filter_applied(m1, m2) && loads_begun(
                        m2,
                        *self,
                        reqs@,
                    ));
                    KeyAction::Load(reqs)
                },
                Focus::Files => {
                    if c == 'j' {
                        self.move_file_down();
                        KeyAction::Continue
                    } else if c == 'k' {
                        self.move_file_up();
                        KeyAction::Continue
                    } else if c == 'b' {
                        let hash = self.selected_hash();
                        let path = match self.selected_changed_file() {
                            Some(f) => Some(f.path.clone()),
                            None => None,
                        };
                        match (hash, path) {
                            (Some(h), Some(p)) => {
                                self.open_blame(h.clone(), p.clone());
                                let ghost m = *self;
                                let started = self.begin_blame_load(h.as_str(), p.as_str());
                                assert(blame_opened(a, m, h, p) && blame_load_begun(
                                    m,
                                    *self,
                                    h@,
                                    p@,
                                    started,
                                ));
                                if started {
                                    let mut reqs: Vec<LoadRequest> = Vec::new();
                                    reqs.push(LoadRequest::Blame(h, p));
                                    KeyAction::Load(reqs)
                                } else {
                                    KeyAction::Continue
                                }
                            },
                            _ => KeyAction::Continue,
                        }
                    } else {
                        KeyAction::Continue
                    }
                },
                Focus::Preview => {
                    if c == 'j' {
                        if self.blame_view.is_some() {
                            self.blame_move_down();
                        } else {
                            self.scroll_diff_down();
                        }
                    } else if c == 'k' {
                        if self.blame_view.is_some() {
                            self.blame_move_up();
                        } else {
                            self.scroll_diff_up();
                        }
                    }
                    KeyAction::Continue
                },
            },
            Key::Backspace => {
                if focus == Focus::List {
                    pop_char(&mut self.query);
                    let ghost m1 = *self;
                    self.update_filter();
                    let ghost m2 = *self;
                    let reqs = self.begin_loads();
                    assert(query_set(
                        a,
                        m1,
                        if a.query@.len() == 0 {
                            a.query@
                        } else {
                            a.query@.drop_last()
                        },
                    ) && filter_applied(m1, m2) && loads_begun(m2, *self, reqs@));
                    KeyAction::Load(reqs)
                } else {
                    KeyAction::Continue
                }
            },
            Key::Enter => match self.selected_hash() {
                Some(h) => KeyAction::Copy(h),
                None => KeyAction::Continue,
            },
            Key::Other => KeyAction::Continue,
        }
    }
}

/// What a read of the cache gives back: the diff last stored for a hash,
/// and for every other hash what was there before.
pub proof fn law_diff_read_after_write(before: Cache, after: Cache, h: Seq<char>, state: DiffState, other: Seq<char>)
    requires
        after.diffs_view() == before.diffs_view().insert(h, state),
    ensures
        after.diffs_view().contains_key(h),
        after.diffs_view()[h] == state,
        other != h ==> after.diffs_view().contains_key(other) == before.diffs_view().contains_key(other),
        other != h && before.diffs_view().contains_key(other) ==> after.diffs_view()[other]
            == before.diffs_view()[other],
{
}

/// What a read of the blame cache gives back: the blame last stored for a
/// (hash, path), and for every other pair what was there before.
pub proof fn law_blame_read_after_write(
    before: Cache,
    after: Cache,
    key: (Seq<char>, Seq<char>),
    state: BlameCacheState,
    other: (Seq<char>, Seq<char>),
)
    requires
        after.blame_view() == before.blame_view().insert(key, state),
    ensures
        after.blame_view().contains_key(key),
        after.blame_view()[key] == state,
        other != key ==> after.blame_view().contains_key(other) == before.blame_view().contains_key(other),
        other != key && before.blame_view().contains_key(other) ==> after.blame_view()[other]
            == before.blame_view()[other],
{
}

/// One write to the cache, as `insert_diff`, `insert_branch`,
/// `insert_changed_files`, `insert_blame` (and `apply`) make it.
pub enum CacheWrite {
    Diff(Seq<char>, DiffState),
    Branch(Seq<char>, BranchState),
    ChangedFiles(Seq<char>, ChangedFilesState),
    Blame(Seq<char>, Seq<char>, BlameCacheState),
}

/// `b` is `a` after the write `w`: the written map gains the entry and the
/// other maps stay as they were.
pub open spec fn write_done(a: Cache, b: Cache, w: CacheWrite) -> bool {
    match w {
        CacheWrite::Diff(h, st) => {
            &&& b.diffs_view() == a.diffs_view().insert(h, st)
            &&& b.branches_view() == a.branches_view()
            &&& b.changed_files_view() == a.changed_files_view()
            &&& b.blame_view() == a.blame_view()
        },
        CacheWrite::Branch(h, st) => {
            &&& b.branches_view() == a.branches_view().insert(h, st)
            &&& b.diffs_view() == a.diffs_view()
            &&& b.changed_files_view() == a.changed_files_view()
            &&& b.blame_view() == a.blame_view()
        },
        CacheWrite::ChangedFiles(h, st) => {
            &&& b.changed_files_view() == a.changed_files_view().insert(h, st)
            &&& b.diffs_view() == a.diffs_view()
            &&& b.branches_view() == a.branches_view()
            &&& b.blame_view() == a.blame_view()
        },
        CacheWrite::Blame(h, p, st) => {
            &&& b.blame_view() == a.blame_view().insert((h, p), st)
            &&& b.diffs_view() == a.diffs_view()
            &&& b.branches_view() == a.branches_view()
            &&& b.changed_files_view() == a.changed_files_view()
        },
    }
}

/// `cs` is a history of the cache: each state follows the one before it by
/// the write of the same index in `ws`.
pub open spec fn cache_history(cs: Seq<Cache>, ws: Seq<CacheWrite>) -> bool {
    &&& cs.len() == ws.len() + 1
    &&& forall|i: int| 0 <= i < ws.len() ==> #[trigger] write_done(cs[i], cs[i + 1], ws[i])
}

/// The state that the last write of a diff under `k` in `ws` stored, if any
/// write did.
pub open spec fn last_diff_write(ws: Seq<CacheWrite>, k: Seq<char>) -> Option<DiffState>
    decreases ws.len(),
{
    if ws.len() == 0 {
        None
    } else {
        match ws.last() {
            CacheWrite::Diff(h, st) => if h == k { Some(st) } else { last_diff_write(ws.drop_last(), k) },
            _ => last_diff_write(ws.drop_last(), k),
        }
    }
}

/// Over any history of writes (reads change nothing), a read of a diff under
/// `k` gives back what the last write under `k` stored; where no write was
/// made under `k`, it gives what the first state held (nothing, for a cache
/// that `Cache::new` made).
pub proof fn law_diff_history(cs: Seq<Cache>, ws: Seq<CacheWrite>, k: Seq<char>)
    requires
        cache_history(cs, ws),
    ensures
        match last_diff_write(ws, k) {
            Some(st) => cs.last().diffs_view().contains_key(k) && cs.last().diffs_view()[k] == st,
            None => {
                &&& cs.last().diffs_view().contains_key(k) == cs[0].diffs_view().contains_key(k)
                &&& cs[0].diffs_view().contains_key(k) ==> cs.last().diffs_view()[k] == cs[0].diffs_view()[k]
            },
        },
    decreases ws.len(),
{
    if ws.len() > 0 {
        let n = ws.len() - 1;
        assert(write_done(cs[n], cs[n + 1], ws[n]));
        assert forall|i: int| 0 <= i < ws.drop_last().len() implies #[trigger] write_done(
            cs.drop_last()[i],
            cs.drop_last()[i + 1],
            ws.drop_last()[i],
        ) by {
            assert(write_done(cs[i], cs[i + 1], ws[i]));
        }
        law_diff_history(cs.drop_last(), ws.drop_last(), k);
    }
}

/// The state that the last write of a branch label under `k` in `ws` stored, if any
/// write did.
pub open spec fn last_branch_write(ws: Seq<CacheWrite>, k: Seq<char>) -> Option<BranchState>
    decreases ws.len(),
{
    if ws.len() == 0 {
        None
    } else {
        match ws.last() {
            CacheWrite::Branch(h, st) => if h == k { Some(st) } else { last_branch_write(ws.drop_last(), k) },
            _ => last_branch_write(ws.drop_last(), k),
        }
    }
}

/// Over any history of writes (reads change nothing), a read of a branch label under
/// `k` gives back what the last write under `k` stored; where no write was
/// made under `k`, it gives what the first state held (nothing, for a cache
/// that `Cache::new` made).
pub proof fn law_branch_history(cs: Seq<Cache>, ws: Seq<CacheWrite>, k: Seq<char>)
    requires
        cache_history(cs, ws),
    ensures
        match last_branch_write(ws, k) {
            Some(st) => cs.last().branches_view().contains_key(k) && cs.last().branches_view()[k] == st,
            None => {
                &&& cs.last().branches_view().contains_key(k) == cs[0].branches_view().contains_key(k)
                &&& cs[0].branches_view().contains_key(k) ==> cs.last().branches_view()[k] == cs[0].branches_view()[k]
            },
        },
    decreases ws.len(),
{
    if ws.len() > 0 {
        let n = ws.len() - 1;
        assert(write_done(cs[n], cs[n + 1], ws[n]));
        assert forall|i: int| 0 <= i < ws.drop_last().len() implies #[trigger] write_done(
            cs.drop_last()[i],
            cs.drop_last()[i + 1],
            ws.drop_last()[i],
        ) by {
            assert(write_done(cs[i], cs[i + 1], ws[i]));
        }
        law_branch_history(cs.drop_last(), ws.drop_last(), k);
    }
}

/// The state that the last write of the changed files under `k` in `ws` stored, if any
/// write did.
pub open spec fn last_changed_files_write(ws: Seq<CacheWrite>, k: Seq<char>) -> Option<ChangedFilesState>
    decreases ws.len(),
{
    if ws.len() == 0 {
        None
    } else {
        match ws.last() {
            CacheWrite::ChangedFiles(h, st) => if h == k { Some(st) } else { last_changed_files_write(ws.drop_last(), k) },
            _ => last_changed_files_write(ws.drop_last(), k),
        }
    }
}

/// Over any history of writes (reads change nothing), a read of the changed files under
/// `k` gives back what the last write under `k` stored; where no write was
/// made under `k`, it gives what the first state held (nothing, for a cache
/// that `Cache::new` made).
pub proof fn law_changed_files_history(cs: Seq<Cache>, ws: Seq<CacheWrite>, k: Seq<char>)
    requires
        cache_history(cs, ws),
    ensures
        match last_changed_files_write(ws, k) {
            Some(st) => cs.last().changed_files_view().contains_key(k) && cs.last().changed_files_view()[k] == st,
            None => {
                &&& cs.last().changed_files_view().contains_key(k) == cs[0].changed_files_view().contains_key(k)
                &&& cs[0].changed_files_view().contains_key(k) ==> cs.last().changed_files_view()[k] == cs[0].changed_files_view()[k]
            },
        },
    decreases ws.len(),
{
    if ws.len() > 0 {
        let n = ws.len() - 1;
        assert(write_done(cs[n], cs[n + 1], ws[n]));
        assert forall|i: int| 0 <= i < ws.drop_last().len() implies #[trigger] write_done(
            cs.drop_last()[i],
            cs.drop_last()[i + 1],
            ws.drop_last()[i],
        ) by {
            assert(write_done(cs[i], cs[i + 1], ws[i]));
        }
        law_changed_files_history(cs.drop_last(), ws.drop_last(), k);
    }
}

/// The state that the last write of a blame under `k` in `ws` stored, if any
/// write did.
pub open spec fn last_blame_write(ws: Seq<CacheWrite>, k: (Seq<char>, Seq<char>)) -> Option<BlameCacheState>
    decreases ws.len(),
{
    if ws.len() == 0 {
        None
    } else {
        match ws.last() {
            CacheWrite::Blame(h, p, st) => if (h, p) == k { Some(st) } else { last_blame_write(ws.drop_last(), k) },
            _ => last_blame_write(ws.drop_last(), k),
        }
    }
}

/// Over any history of writes (reads change nothing), a read of a blame under
/// `k` gives back what the last write under `k` stored; where no write was
/// made under `k`, it gives what the first state held (nothing, for a cache
/// that `Cache::new` made).
pub proof fn law_blame_history(cs: Seq<Cache>, ws: Seq<CacheWrite>, k: (Seq<char>, Seq<char>))
    requires
        cache_history(cs, ws),
    ensures
        match last_blame_write(ws, k) {
            Some(st) => cs.last().blame_view().contains_key(k) && cs.last().blame_view()[k] == st,
            None => {
                &&& cs.last().blame_view().contains_key(k) == cs[0].blame_view().contains_key(k)
                &&& cs[0].blame_view().contains_key(k) ==> cs.last().blame_view()[k] == cs[0].blame_view()[k]
            },
        },
    decreases ws.len(),
{
    if ws.len() > 0 {
        let n = ws.len() - 1;
        assert(write_done(cs[n], cs[n + 1], ws[n]));
        assert forall|i: int| 0 <= i < ws.drop_last().len() implies #[trigger] write_done(
            cs.drop_last()[i],
            cs.drop_last()[i + 1],
            ws.drop_last()[i],
        ) by {
            assert(write_done(cs[i], cs[i + 1], ws[i]));
        }
        law_blame_history(cs.drop_last(), ws.drop_last(), k);
    }
}

/// Nothing is loaded twice: right after the loads for the selected commit
/// have begun, beginning them again requests nothing and changes no cache.
pub proof fn law_loads_begin_once(a: App, b: App, c: App, first: Seq<LoadRequest>, second: Seq<LoadRequest>)
    requires
        loads_begun(a, b, first),
        loads_begun(b, c, second),
    ensures
        second.len() == 0,
        c.cache.diffs_view() == b.cache.diffs_view(),
        c.cache.branches_view() == b.cache.branches_view(),
        c.cache.changed_files_view() == b.cache.changed_files_view(),
        c.cache.blame_view() == b.cache.blame_view(),
{
    match selected_index(a) {
        Some(i) => {
            assert(selected_index(b) == Some(i));
        },
        None => {},
    }
}

/// A blame is requested at most once for the same file at the same commit.
pub proof fn law_blame_load_begins_once(
    a: App,
    b: App,
    c: App,
    h: Seq<char>,
    p: Seq<char>,
    first: bool,
    second: bool,
)
    requires
        blame_load_begun(a, b, h, p, first),
        blame_load_begun(b, c, h, p, second),
    ensures
        !second,
        c.cache.blame_view() == b.cache.blame_view(),
{
}

/// One step down and one step up return to the same commit when there was
/// a row below.
pub proof fn law_down_then_up(a: App, b: App, c: App)
    requires
        moved_down(a, b),
        moved_up(b, c),
        a.list_selected matches Some(s) && s + 1 < a.filtered@.len(),
    ensures
        c.list_selected == a.list_selected,
{
    assert(a.filtered@.len() == a.filtered.len());
}

/// One step up and one step down return to the same commit when there was
/// a row above.
pub proof fn law_up_then_down(a: App, b: App, c: App)
    requires
        moved_up(a, b),
        moved_down(b, c),
        a.list_selected matches Some(s) && s > 0,
        a.wf(),
    ensures
        c.list_selected == a.list_selected,
{
}

/// Scrolling the diff down and back up returns to the same place unless
/// the scroll hit its limit.
pub proof fn law_scroll_down_then_up(s: u16)
    requires
        s + 3 <= u16::MAX,
    ensures
        scroll_up_of(scroll_down_of(s)) == s,
{
}

/// Tab visits the three panes and comes back after three presses.
pub proof fn law_focus_cycle(f: Focus)
    ensures
        next_focus(next_focus(next_focus(f))) == f,
        next_focus(f) != f,
{
}

/// The filter keeps exactly the commits that match, in their order: an
/// index is listed if and only if its commit matches, and the list
/// increases.
pub proof fn law_filter_exact(cs: Seq<CommitView>, q: Seq<char>)
    requires
        cs.len() <= usize::MAX,
    ensures
        forall|i: int|
            0 <= i < cs.len() ==> (matching_indices(cs, q).contains(i as usize) <==> commit_matches(
                #[trigger] cs[i],
                q,
            )),
        forall|k: int|
            0 <= k < matching_indices(cs, q).len() ==> #[trigger] matching_indices(cs, q)[k] < cs.len(),
        forall|k: int, l: int|
            0 <= k < l < matching_indices(cs, q).len() ==> matching_indices(cs, q)[k]
                < matching_indices(cs, q)[l],
    decreases cs.len(),
{
    if cs.len() > 0 {
        let prev = cs.drop_last();
        law_filter_exact(prev, q);
        let m = matching_indices(cs, q);
        let pm = matching_indices(prev, q);
        let n = (cs.len() - 1) as usize;
        assert(n == cs.len() - 1);
        assert(forall|k: int| 0 <= k < pm.len() ==> #[trigger] pm[k] < n);
        if commit_matches(cs.last(), q) {
            assert(m == pm.push(n));
        } else {
            assert(m == pm);
        }
        assert forall|k: int, l: int| 0 <= k < l < m.len() implies m[k] < m[l] by {
            if l == pm.len() {
                assert(pm[k] < n);
            }
        }
        assert forall|k: int| 0 <= k < m.len() implies #[trigger] m[k] < cs.len() by {
            if k < pm.len() {
                assert(pm[k] < n);
            }
        }
        assert forall|i: int| 0 <= i < cs.len() implies (m.contains(i as usize) <==> commit_matches(
            #[trigger] cs[i],
            q,
        )) by {
            if i < cs.len() - 1 {
                assert(prev[i] == cs[i]);
                assert(prev.len() <= usize::MAX);
                if m.contains(i as usize) {
                    let k = choose|k: int| 0 <= k < m.len() && m[k] == i as usize;
                    if k < pm.len() {
                        assert(pm[k] == i as usize);
                        assert(pm.contains(i as usize));
                    } else {
                        assert(m[k] == n);
                    }
                }
                if pm.contains(i as usize) {
                    let k = choose|k: int| 0 <= k < pm.len() && pm[k] == i as usize;
                    assert(m[k] == i as usize);
                }
            } else {
                assert(cs[i] == cs.last());
                if commit_matches(cs.last(), q) {
                    assert(m[pm.len() as int] == n);
                } else {
                    if m.contains(i as usize) {
                        let k = choose|k: int| 0 <= k < m.len() && m[k] == i as usize;
                        assert(pm[k] < n);
                    }
                }
            }
        }
    }
}

/// With an empty query every commit is listed, in order.
pub proof fn law_empty_query_lists_all(cs: Seq<CommitView>)
    ensures
        matching_indices(cs, Seq::empty()) == Seq::new(cs.len(), |i: int| i as usize),
    decreases cs.len(),
{
    if cs.len() > 0 {
        law_empty_query_lists_all(cs.drop_last());
        assert(matching_indices(cs, Seq::empty()) =~= Seq::new(cs.len(), |i: int| i as usize));
    } else {
        assert(matching_indices(cs, Seq::empty()) =~= Seq::new(cs.len(), |i: int| i as usize));
    }
}

/// The author filter: for a query `@` followed by `t`, after `update_filter`
/// a commit is listed exactly when `t` occurs, ignoring case, anywhere in
/// its author's name.
pub proof fn law_author_filter(a: App, b: App, t: Seq<char>)
    requires
        filter_applied(a, b),
        a.query@ == seq!['@'] + t,
    ensures
        forall|i: int|
            0 <= i < a.commits@.len() ==> (b.filtered@.contains(i as usize) <==> occurs_in(
                lowercase(#[trigger] a.commits@[i].author@),
                lowercase(t),
            )),
{
    let q = a.query@;
    let cs = commit_views(a.commits@);
    vstd::std_specs::vec::axiom_spec_len(&a.commits);
    law_filter_exact(cs, q);
    assert(q.drop_first() =~= t);
    assert(q[0] == '@');
    assert forall|i: int| 0 <= i < a.commits@.len() implies (b.filtered@.contains(i as usize)
        <==> occurs_in(lowercase(#[trigger] a.commits@[i].author@), lowercase(t))) by {
        assert(cs[i] == a.commits@[i]@);
        assert(commit_matches(cs[i], q) == occurs_in(lowercase(a.commits@[i].author@), lowercase(t)));
    }
}

/// The fuzzy filter: for a query that is not empty and does not start with
/// `@`, after `update_filter` a commit is listed exactly when the query is
/// fuzzy-found in its subject, a space and its author.
pub proof fn law_fuzzy_filter(a: App, b: App)
    requires
        filter_applied(a, b),
        a.query@.len() > 0,
        a.query@[0] != '@',
    ensures
        forall|i: int|
            0 <= i < a.commits@.len() ==> (b.filtered@.contains(i as usize) <==> fuzzy_found(
                (#[trigger] a.commits@[i]).subject@ + " "@ + a.commits@[i].author@,
                a.query@,
            )),
{
    let q = a.query@;
    let cs = commit_views(a.commits@);
    vstd::std_specs::vec::axiom_spec_len(&a.commits);
    law_filter_exact(cs, q);
    assert forall|i: int| 0 <= i < a.commits@.len() implies (b.filtered@.contains(i as usize)
        <==> fuzzy_found((#[trigger] a.commits@[i]).subject@ + " "@ + a.commits@[i].author@, q)) by {
        assert(cs[i] == a.commits@[i]@);
    }
}

/// Up in the commit list selects the row above, and stays on the first row.
pub proof fn law_up_key_selects_above(a: App, b: App, act: KeyAction, s: usize)
    requires
        key_handled(a, b, Key::Up, act),
        a.focus == Focus::List,
        a.list_selected == Some(s),
    ensures
        s > 0 ==> b.list_selected == Some((s - 1) as usize),
        s == 0 ==> b.list_selected == Some(0usize),
        b.filtered == a.filtered,
        b.focus == Focus::List,
{
    let reqs = act->Load_0;
    let m = choose|m: App| #[trigger] moved_up(a, m) && loads_begun(m, b, reqs@);
}

/// Down in the commit list selects the row below, and stays on the last row.
pub proof fn law_down_key_selects_below(a: App, b: App, act: KeyAction, s: usize)
    requires
        key_handled(a, b, Key::Down, act),
        a.focus == Focus::List,
        a.list_selected == Some(s),
    ensures
        s + 1 < a.filtered@.len() ==> b.list_selected == Some((s + 1) as usize),
        s + 1 >= a.filtered@.len() ==> b.list_selected == Some(s),
        b.filtered == a.filtered,
        b.focus == Focus::List,
{
    let reqs = act->Load_0;
    let m = choose|m: App| #[trigger] moved_down(a, m) && loads_begun(m, b, reqs@);
}

/// Down then Up in the commit list comes back to the same row, wherever a
/// row below exists.
pub proof fn law_down_up_keys_return(a: App, b: App, c: App, act1: KeyAction, act2: KeyAction, s: usize)
    requires
        key_handled(a, b, Key::Down, act1),
        key_handled(b, c, Key::Up, act2),
        a.focus == Focus::List,
        a.list_selected == Some(s),
        s + 1 < a.filtered@.len(),
    ensures
        c.list_selected == a.list_selected,
{
    vstd::std_specs::vec::axiom_spec_len(&a.filtered);
    law_down_key_selects_below(a, b, act1, s);
    let s1 = (s + 1) as usize;
    assert(b.list_selected == Some(s1));
    law_up_key_selects_above(b, c, act2, s1);
    assert((s1 - 1) as usize == s);
}

/// Enter copies the hash of the commit on the selected row of the filtered
/// list, and changes nothing.
pub proof fn law_enter_copies_selected(a: App, b: App, act: KeyAction, s: usize)
    requires
        key_handled(a, b, Key::Enter, act),
        a.list_selected == Some(s),
        s < a.filtered@.len(),
        a.filtered@[s as int] < a.commits@.len(),
    ensures
        b == a,
        act == KeyAction::Copy(a.commits@[a.filtered@[s as int] as int].hash),
{
}

/// `b` in the files pane opens the blame of the selected file of the
/// selected commit: the view shows it from its first line, the preview is
/// focused, and its load is requested unless the cache holds it.
pub proof fn law_blame_key_opens_selected_file(
    a: App,
    b: App,
    act: KeyAction,
    s: usize,
    k: usize,
    files: Vec<ChangedFile>,
)
    requires
        key_handled(a, b, Key::Char('b'), act),
        a.focus == Focus::Files,
        a.list_selected == Some(s),
        s < a.filtered@.len(),
        a.filtered@[s as int] < a.commits@.len(),
        a.cache.changed_files_view().contains_key(a.commits@[a.filtered@[s as int] as int].hash@),
        a.cache.changed_files_view()[a.commits@[a.filtered@[s as int] as int].hash@]
            == ChangedFilesState::Loaded(files),
        a.files_selected == Some(k),
        k < files@.len(),
    ensures
        ({
            let h = a.commits@[a.filtered@[s as int] as int].hash;
            let p = files@[k as int].path;
            &&& b.blame_view == Some(
                BlameView { commit_hash: h, file_path: p, selected_line: 0, scroll_offset: 0 },
            )
            &&& b.focus == Focus::Preview
            &&& b.cache.blame_view().contains_key((h@, p@))
            &&& !a.cache.blame_view().contains_key((h@, p@)) ==> (act matches KeyAction::Load(
                reqs,
            ) && reqs@ == seq![LoadRequest::Blame(h, p)])
            &&& a.cache.blame_view().contains_key((h@, p@)) ==> act is Continue
        }),
{
    let h = a.commits@[a.filtered@[s as int] as int].hash;
    let p = files@[k as int].path;
    assert(selected_index(a) == Some(a.filtered@[s as int] as int));
    assert(selected_file(a) == Some(files@[k as int]));
    let started = !a.cache.blame_view().contains_key((h@, p@));
    let m = choose|m: App| #[trigger] blame_opened(a, m, h, p) && blame_load_begun(m, b, h@, p@, started);
}

/// After `fit_scroll` in a window with rows, the selected line is on
/// screen: the offset is at most the line, and the line is within the
/// window's rows. (Where the last page starts beyond `u16::MAX` the offset
/// cannot hold it, and the law is not stated.)
pub proof fn law_fit_scroll_shows_selected(sel: usize, off: u16, height: usize, total: usize)
    requires
        height > 0,
        sel < total,
        total <= height + u16::MAX,
    ensures
        fitted_offset(sel, off, height, total) <= sel,
        sel < fitted_offset(sel, off, height, total) + height,
{
}

/// `fit_scroll` leaves the offset alone while the selected line is on
/// screen and the window does not run past the last line (where the last
/// page starts beyond `u16::MAX`, the offset cannot hold it, and the law is
/// not stated).
pub proof fn law_fit_scroll_keeps_visible(sel: usize, off: u16, height: usize, total: usize)
    requires
        height > 0,
        off <= sel < off + height,
        off + height <= total,
        total <= height + u16::MAX,
    ensures
        fitted_offset(sel, off, height, total) == off,
{
}
} // verus!
