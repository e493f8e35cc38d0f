//! The engine and what surrounds it.
pub mod fuzzy;
pub mod paths;
pub mod file_helper;
pub mod cache;
pub mod folder_holder;

use vstd::prelude::*;

use crate::app_error::AppError;
use crate::message_holder::file_helper::{
    check_file_size, count_newlines, full_path_spec, longest_line_len, snapshot_in, views, FileGroupHolder,
    FileTextInfo, MAX_FILE_SIZE,
};
use crate::message_holder::folder_holder::{
    collapse_result, expand_result, in_history, refresh_result, reselected, with_input, Expansion,
    FolderHolder, FolderView, DEFAULT_CACHE_SIZE,
};
use crate::state_holder::{InputMode, StateHolder, ViewMode};
use vstd::string::StringSliceAdditionalSpecFns;

verus! {

/// The Euclidean remainder of `raw` by `len`: moving up from the first row wraps to the last,
/// moving down past the last wraps to the first.
pub fn wrap_index(raw: i32, len: usize) -> (r: usize)
    requires
        len > 0,
    ensures
        r as int == (raw as int) % (len as int),
        r < len,
{
    if raw >= 0 {
        (raw as usize) % len
    } else {
        let m: usize = ((0i64 - raw as i64) as usize) % len;
        proof {
            let d = len as int;
            let x = raw as int;
            let q = (-x) / d;
            vstd::arithmetic::div_mod::lemma_fundamental_div_mod(-x, d);
            assert(-x == d * q + m);
            if m == 0 {
                assert(x == (-q) * d + 0) by (nonlinear_arith)
                    requires
                        -x == d * q + m,
                        m == 0,
                ;
                vstd::arithmetic::div_mod::lemma_fundamental_div_mod_converse(x, d, -q, 0);
            } else {
                assert(x == (-q - 1) * d + (d - m)) by (nonlinear_arith)
                    requires
                        -x == d * q + m,
                ;
                vstd::arithmetic::div_mod::lemma_fundamental_div_mod_converse(x, d, -q - 1, d - m);
            }
        }
        if m == 0 {
            0
        } else {
            len - m
        }
    }
}

/// How many rows a page holds when scrolling by pages.
pub const PAGE_ROWS: usize = 30;

/// What the entry to submit turned out to be on disk.
#[derive(Debug)]
pub enum Resolution {
    /// Its path no longer resolves.
    Missing,
    /// A directory, at this resolved path.
    Directory(String),
    /// Anything else, at this resolved path.
    File(String),
}

/// What is left to do after a submit, which needs the filesystem.
#[derive(Debug, PartialEq, Eq)]
pub enum SubmitAction {
    /// Nothing: there was no entry to submit, or the stale one was dropped.
    Done,
    /// Enter this directory (reading it where it is not cached).
    EnterDirectory(String),
    /// Open this file (where it is not larger than the limit).
    OpenFile(String),
    /// Read the current directory again: its listing has changed.
    RefreshCurrent,
}

/// A move of the view over an opened file.
#[derive(Debug, Clone, Copy, PartialEq, Eq)]
pub enum ScrollMove {
    /// Down by this many rows, no further than the last row.
    Down(usize),
    /// Up by this many rows, no further than the first.
    Up(usize),
    /// One column right, no further than the longest line.
    Right,
    /// One column left, no further than the first.
    Left,
    /// Back to the first row and column.
    Home,
    /// To the last page.
    End,
}

/// The view over the engine: which row is highlighted, and the file that is open.
#[derive(Debug)]
pub struct MessageHolder {
    pub folder_holder: FolderHolder,
    pub raw_highlight_index: i32,
    pub file_opened: Option<String>,
    pub file_text_info: Option<FileTextInfo>,
    pub vertical_scroll: usize,
    pub horizontal_scroll: usize,
}

impl MessageHolder {
    /// The row that `raw` highlights among `len` rows.
    pub open spec fn highlighted(raw: i32, len: nat) -> int {
        (raw as int) % (len as int)
    }

    /// A view in `current_directory` with snapshot `holder`, the first row highlighted and no
    /// file open.
    pub fn new(current_directory: String, holder: FileGroupHolder) -> (r: MessageHolder)
        requires
            snapshot_in(holder, current_directory@),
        ensures
            r.folder_holder.wf(),
            r.folder_holder@ == (FolderView {
                cache: seq![(current_directory@, holder)],
                capacity: DEFAULT_CACHE_SIZE as nat,
                input: Seq::empty(),
                selected: views(holder.child@),
                current_directory: current_directory@,
                current: views(holder.child@),
                expand_level: 0,
            }),
            r.raw_highlight_index == 0,
            r.file_opened is None,
            r.file_text_info is None,
            r.vertical_scroll == 0,
            r.horizontal_scroll == 0,
    {
        MessageHolder {
            folder_holder: FolderHolder::new(current_directory, holder),
            raw_highlight_index: 0,
            file_opened: None,
            file_text_info: None,
            vertical_scroll: 0,
            horizontal_scroll: 0,
        }
    }

    /// Highlights the first row.
    pub fn reset_index(&mut self)
        ensures
            final(self).raw_highlight_index == 0,
            final(self).folder_holder == old(self).folder_holder,
            final(self).file_opened == old(self).file_opened,
            final(self).file_text_info == old(self).file_text_info,
    {
        self.raw_highlight_index = 0;
    }

    /// Moves the highlight up one row (wrapping when the rows are counted).
    pub fn move_up(&mut self)
        ensures
            final(self).raw_highlight_index == if old(self).raw_highlight_index == i32::MIN {
                i32::MIN
            } else {
                (old(self).raw_highlight_index - 1) as i32
            },
    {
        if self.raw_highlight_index > i32::MIN {
            self.raw_highlight_index = self.raw_highlight_index - 1;
        }
    }

    /// Moves the highlight down one row (wrapping when the rows are counted).
    pub fn move_down(&mut self)
        ensures
            final(self).raw_highlight_index == if old(self).raw_highlight_index == i32::MAX {
                i32::MAX
            } else {
                (old(self).raw_highlight_index + 1) as i32
            },
    {
        if self.raw_highlight_index < i32::MAX {
            self.raw_highlight_index = self.raw_highlight_index + 1;
        }
    }

    /// Replaces the filter where `input` gives one, recomputes the selection and highlights
    /// the first row.
    pub fn update(&mut self, state: &StateHolder, input: Option<String>)
        requires
            old(self).folder_holder.wf(),
        ensures
            final(self).folder_holder.wf(),
            final(self).folder_holder@ == reselected(with_input(old(self).folder_holder@, input), in_history(state)),
            final(self).raw_highlight_index == 0,
    {
        self.folder_holder.update(state, input);
        self.reset_index();
    }

    /// Flattens the current entries one more level (see `FolderHolder::expand`).
    pub fn expand(&mut self, state: &StateHolder, expansions: Vec<Expansion>) -> (r: Result<(), AppError>)
        requires
            old(self).folder_holder.wf(),
        ensures
            final(self).folder_holder.wf(),
            match r {
                Ok(()) => expand_result(old(self).folder_holder@, expansions@, in_history(state)) == Some(
                    final(self).folder_holder@,
                ),
                Err(e) => expand_result(old(self).folder_holder@, expansions@, in_history(state)) is None
                    && final(self).folder_holder@ == old(self).folder_holder@ && e is State,
            },
    {
        self.folder_holder.expand(state, expansions)
    }

    /// Undoes one flattening (see `FolderHolder::collapse`).
    pub fn collapse(&mut self, state: &StateHolder)
        requires
            old(self).folder_holder.wf(),
        ensures
            final(self).folder_holder.wf(),
            final(self).folder_holder@ == collapse_result(old(self).folder_holder@, in_history(state)),
    {
        self.folder_holder.collapse(state);
    }

    /// Reads the current directory again as `holder` (see `FolderHolder::refresh`).
    pub fn refresh_current_folder_cache(&mut self, state: &StateHolder, holder: FileGroupHolder)
        requires
            old(self).folder_holder.wf(),
            snapshot_in(holder, old(self).folder_holder@.current_directory),
        ensures
            final(self).folder_holder.wf(),
            final(self).folder_holder@ == refresh_result(old(self).folder_holder@, holder, in_history(state)),
    {
        self.folder_holder.refresh(state, holder);
    }

    /// Closes the opened file.
    pub fn reset_file_view(&mut self)
        ensures
            final(self).file_opened is None,
            final(self).file_text_info is None,
            final(self).folder_holder == old(self).folder_holder,
            final(self).raw_highlight_index == old(self).raw_highlight_index,
    {
        self.file_opened = None;
        self.file_text_info = None;
    }

    /// Clears the filter, recomputes the selection, closes the file and highlights the first row.
    pub fn reset(&mut self, state: &StateHolder)
        requires
            old(self).folder_holder.wf(),
        ensures
            final(self).folder_holder.wf(),
            final(self).folder_holder@ == reselected(
                FolderView { input: Seq::empty(), ..old(self).folder_holder@ },
                in_history(state),
            ),
            final(self).file_opened is None,
            final(self).file_text_info is None,
            final(self).raw_highlight_index == 0,
    {
        self.folder_holder.update(state, Some(String::new()));
        self.reset_index();
        self.reset_file_view();
    }

    /// The highlighted row among `group_len` rows.
    pub fn get_highlight_index(&self, group_len: usize) -> (r: usize)
        requires
            group_len > 0,
        ensures
            r == Self::highlighted(self.raw_highlight_index, group_len as nat),
            r < group_len,
    {
        wrap_index(self.raw_highlight_index, group_len)
    }

    /// The path of the highlighted entry, to be resolved on disk before `submit`; none where
    /// nothing is selected.
    pub fn submit_target(&self) -> (r: Option<String>)
        ensures
            ({
                let sel = self.folder_holder@.selected;
                match r {
                    Some(p) => sel.len() > 0 && p@ == full_path_spec(
                        sel[Self::highlighted(self.raw_highlight_index, sel.len())],
                    ),
                    None => sel.len() == 0,
                }
            }),
    {
        let n = self.folder_holder.selected_len();
        if n == 0 {
            None
        } else {
            let i = self.get_highlight_index(n);
            Some(self.folder_holder.submit(i))
        }
    }

    /// Highlights the `..` entry and selects everything, so that submitting it goes to the
    /// parent directory; the path to resolve before `submit`, as `submit_target` gives it.
    pub fn to_parent(&mut self, state: &StateHolder) -> (r: Option<String>)
        requires
            old(self).folder_holder.wf(),
        ensures
            final(self).folder_holder.wf(),
            final(self).folder_holder@ == reselected(old(self).folder_holder@, in_history(state)),
            final(self).raw_highlight_index == 0,
            ({
                let sel = final(self).folder_holder@.selected;
                match r {
                    Some(p) => sel.len() > 0 && p@ == full_path_spec(sel[0]),
                    None => sel.len() == 0,
                }
            }),
    {
        self.update(state, None);
        self.submit_target()
    }

    /// Decides what the highlighted entry, resolved on disk as `resolution`, leads to. Nothing
    /// where nothing is selected. A directory: leaves history mode for (Normal, Search) and
    /// asks to enter it. A file: asks to open it. A path that no longer resolves: in history
    /// mode it is dropped from the selection and the cache; otherwise the current directory is
    /// to be read again.
    pub fn submit(&mut self, state: &mut StateHolder, resolution: Resolution) -> (r: Result<SubmitAction, AppError>)
        requires
            old(self).folder_holder.wf(),
        ensures
            final(self).folder_holder.wf(),
            final(self).raw_highlight_index == old(self).raw_highlight_index,
            final(self).file_opened == old(self).file_opened,
            final(self).file_text_info == old(self).file_text_info,
            final(self).vertical_scroll == old(self).vertical_scroll,
            final(self).horizontal_scroll == old(self).horizontal_scroll,
            ({
                let v = old(self).folder_holder@;
                let sel = v.selected;
                let hist = old(state)@.view == ViewMode::HistoryFolderView;
                if sel.len() == 0 {
                    r == Ok::<SubmitAction, AppError>(SubmitAction::Done) && final(self).folder_holder@ == v
                        && final(state)@ == old(state)@
                } else {
                    let i = Self::highlighted(old(self).raw_highlight_index, sel.len());
                    match resolution {
                        Resolution::Directory(p) => r == Ok::<SubmitAction, AppError>(
                            SubmitAction::EnterDirectory(p),
                        ) && final(self).folder_holder@ == v && (if hist {
                            StateHolder::transitioned(
                                old(state)@,
                                final(state)@,
                                InputMode::Normal,
                                ViewMode::Search,
                            )
                        } else {
                            final(state)@ == old(state)@
                        }),
                        Resolution::File(p) => r == Ok::<SubmitAction, AppError>(
                            SubmitAction::OpenFile(p),
                        ) && final(self).folder_holder@ == v && final(state)@ == old(state)@,
                        Resolution::Missing => final(state)@ == old(state)@ && if hist {
                            let key = full_path_spec(sel[i]);
                            (r is Err <==> crate::message_holder::cache::key_index(v.cache, key) < 0)
                                && match r {
                                Ok(a) => a == SubmitAction::Done && final(self).folder_holder@ == (
                                FolderView {
                                    selected: sel.remove(i),
                                    cache: crate::message_holder::cache::without_key(v.cache, key),
                                    ..v
                                }),
                                Err(e) => e is Cache && final(self).folder_holder@ == v,
                            }
                        } else {
                            r == Ok::<SubmitAction, AppError>(SubmitAction::RefreshCurrent)
                                && final(self).folder_holder@ == v
                        },
                    }
                }
            }),
    {
        let n = self.folder_holder.selected_len();
        if n == 0 {
            return Ok(SubmitAction::Done);
        }
        let i = self.get_highlight_index(n);
        match resolution {
            Resolution::Directory(p) => {
                if state.is_history_search() {
                    state.to_search();
                }
                Ok(SubmitAction::EnterDirectory(p))
            },
            Resolution::File(p) => Ok(SubmitAction::OpenFile(p)),
            Resolution::Missing => {
                if state.is_history_search() {
                    match self.folder_holder.drop_invalid_folder(state, i) {
                        Ok(()) => Ok(SubmitAction::Done),
                        Err(e) => Err(e),
                    }
                } else {
                    Ok(SubmitAction::RefreshCurrent)
                }
            },
        }
    }

    /// Opens the file at `path`, `size` bytes long with text `text`, and goes to (Normal,
    /// FileView); a `Path` error, with nothing changed, where it is larger than `MAX_FILE_SIZE`.
    pub fn open_file(&mut self, state: &mut StateHolder, path: String, size: u64, text: &str) -> (r: Result<(), AppError>)
        requires
            text.spec_bytes().len() < usize::MAX,
        ensures
            final(self).folder_holder == old(self).folder_holder,
            r is Ok <==> size <= MAX_FILE_SIZE,
            match r {
                Ok(()) => final(self).file_opened == Some(path) && final(self).file_text_info == Some(
                    FileTextInfo {
                        n_rows: (count_newlines(text.spec_bytes()) + 1) as usize,
                        max_line_length: longest_line_len(text.spec_bytes()) as usize,
                    },
                ) && final(self).vertical_scroll == 0 && final(self).horizontal_scroll == 0
                    && StateHolder::transitioned(
                    old(state)@,
                    final(state)@,
                    InputMode::Normal,
                    ViewMode::FileView,
                ),
                Err(e) => e is Path && final(self).file_opened == old(self).file_opened
                    && final(self).file_text_info == old(self).file_text_info && final(state)@
                    == old(state)@,
            },
    {
        match check_file_size(size) {
            Err(e) => Err(e),
            Ok(()) => {
                self.file_text_info = Some(FileTextInfo::new(text));
                self.file_opened = Some(path);
                self.vertical_scroll = 0;
                self.horizontal_scroll = 0;
                state.to_file_view();
                Ok(())
            },
        }
    }

    /// Moves the view over the opened file; a `Parse` error, with nothing changed, where no file
    /// is open.
    pub fn scroll(&mut self, m: ScrollMove) -> (r: Result<(), AppError>)
        ensures
            final(self).folder_holder == old(self).folder_holder,
            r is Ok <==> old(self).file_text_info is Some,
            match old(self).file_text_info {
                None => final(self).vertical_scroll == old(self).vertical_scroll
                    && final(self).horizontal_scroll == old(self).horizontal_scroll,
                Some(info) => {
                    let v = old(self).vertical_scroll as int;
                    let h = old(self).horizontal_scroll as int;
                    match m {
                        ScrollMove::Down(n) => final(self).vertical_scroll == vstd::math::min(
                            vstd::math::min(v + n, usize::MAX as int),
                            info.n_rows as int,
                        ) && final(self).horizontal_scroll == h,
                        ScrollMove::Up(n) => final(self).vertical_scroll == vstd::math::max(v - n, 0)
                            && final(self).horizontal_scroll == h,
                        ScrollMove::Right => final(self).horizontal_scroll == vstd::math::min(
                            vstd::math::min(h + 1, usize::MAX as int),
                            info.max_line_length as int,
                        ) && final(self).vertical_scroll == v,
                        ScrollMove::Left => final(self).horizontal_scroll == vstd::math::max(h - 1, 0)
                            && final(self).vertical_scroll == v,
                        ScrollMove::Home => final(self).vertical_scroll == 0
                            && final(self).horizontal_scroll == 0,
                        ScrollMove::End => final(self).vertical_scroll == vstd::math::max(
                            info.n_rows - PAGE_ROWS,
                            0,
                        ) && final(self).horizontal_scroll == h,
                    }
                },
            },
    {
        let info = match self.file_text_info {
            Some(info) => info,
            None => {
                return Err(AppError::Parse("no file is open".to_owned()));
            },
        };
        match m {
            ScrollMove::Down(n) => {
                let t = if self.vertical_scroll <= usize::MAX - n {
                    self.vertical_scroll + n
                } else {
                    usize::MAX
                };
                self.vertical_scroll = if t < info.n_rows {
                    t
                } else {
                    info.n_rows
                };
            },
            ScrollMove::Up(n) => {
                self.vertical_scroll = if self.vertical_scroll >= n {
                    self.vertical_scroll - n
                } else {
                    0
                };
            },
            ScrollMove::Right => {
                let t = if self.horizontal_scroll < usize::MAX {
                    self.horizontal_scroll + 1
                } else {
                    usize::MAX
                };
                self.horizontal_scroll = if t < info.max_line_length {
                    t
                } else {
                    info.max_line_length
                };
            },
            ScrollMove::Left => {
                if self.horizontal_scroll > 0 {
                    self.horizontal_scroll = self.horizontal_scroll - 1;
                }
            },
            ScrollMove::Home => {
                self.horizontal_scroll = 0;
                self.vertical_scroll = 0;
            },
            ScrollMove::End => {
                self.vertical_scroll = if info.n_rows >= PAGE_ROWS {
                    info.n_rows - PAGE_ROWS
                } else {
                    0
                };
            },
        }
        Ok(())
    }
}

} // verus!
