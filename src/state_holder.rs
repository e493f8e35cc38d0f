//! The input-mode / view-mode state machine with one level of "go back".
use vstd::prelude::*;

verus! {

/// How keyboard input is handled.
#[derive(Debug, Clone, Copy, PartialEq, Eq, Structural)]
pub enum InputMode {
    /// Navigation shortcuts.
    Normal,
    /// Typing a filter.
    Edit,
}

/// What is shown.
#[derive(Debug, Clone, Copy, PartialEq, Eq, Structural)]
pub enum ViewMode {
    /// The current directory under a filter.
    Search,
    /// The contents of one file.
    FileView,
    /// The directories held in the cache.
    HistoryFolderView,
}

/// A state of the machine as values: the current pair and the pair before the last transition.
pub struct ModeState {
    pub input: InputMode,
    pub view: ViewMode,
    pub prev_input: InputMode,
    pub prev_view: ViewMode,
}

/// The current pair of modes, and the pair before the last transition.
#[derive(Debug)]
pub struct StateHolder {
    pub input_mode: InputMode,
    pub view_mode: ViewMode,
    prev_input_mode: InputMode,
    prev_view_mode: ViewMode,
}

impl Default for StateHolder {
    /// Starts in (Edit, Search), with the same pair as the previous one.
    fn default() -> (r: StateHolder)
        ensures
            r@ == (ModeState {
                input: InputMode::Edit,
                view: ViewMode::Search,
                prev_input: InputMode::Edit,
                prev_view: ViewMode::Search,
            }),
    {
        StateHolder {
            input_mode: InputMode::Edit,
            view_mode: ViewMode::Search,
            prev_input_mode: InputMode::Edit,
            prev_view_mode: ViewMode::Search,
        }
    }
}

impl View for StateHolder {
    type V = ModeState;

    closed spec fn view(&self) -> ModeState {
        ModeState {
            input: self.input_mode,
            view: self.view_mode,
            prev_input: self.prev_input_mode,
            prev_view: self.prev_view_mode,
        }
    }
}

impl StateHolder {
    /// The transition to (i, v), saving the pair it leaves.
    pub open spec fn transitioned(old: ModeState, new: ModeState, i: InputMode, v: ViewMode) -> bool {
        &&& new.input == i
        &&& new.view == v
        &&& new.prev_input == old.input
        &&& new.prev_view == old.view
    }

    fn save_previous_state(&mut self)
        ensures
            final(self)@ == (ModeState {
                prev_input: old(self)@.input,
                prev_view: old(self)@.view,
                ..old(self)@
            }),
    {
        self.prev_input_mode = self.input_mode;
        self.prev_view_mode = self.view_mode;
    }

    /// Goes to (Normal, Search).
    pub fn to_search(&mut self)
        ensures
            Self::transitioned(old(self)@, final(self)@, InputMode::Normal, ViewMode::Search),
    {
        self.save_previous_state();
        self.input_mode = InputMode::Normal;
        self.view_mode = ViewMode::Search;
    }

    /// Goes to (Edit, Search).
    pub fn to_search_edit(&mut self)
        ensures
            Self::transitioned(old(self)@, final(self)@, InputMode::Edit, ViewMode::Search),
    {
        self.save_previous_state();
        self.input_mode = InputMode::Edit;
        self.view_mode = ViewMode::Search;
    }

    /// Goes to (Edit, HistoryFolderView).
    pub fn to_history_search(&mut self)
        ensures
            Self::transitioned(
                old(self)@,
                final(self)@,
                InputMode::Edit,
                ViewMode::HistoryFolderView,
            ),
    {
        self.save_previous_state();
        self.input_mode = InputMode::Edit;
        self.view_mode = ViewMode::HistoryFolderView;
    }

    /// Goes to (Normal, FileView).
    pub fn to_file_view(&mut self)
        ensures
            Self::transitioned(old(self)@, final(self)@, InputMode::Normal, ViewMode::FileView),
    {
        self.save_previous_state();
        self.input_mode = InputMode::Normal;
        self.view_mode = ViewMode::FileView;
    }

    /// Whether input goes to the filter.
    pub fn is_edit(&self) -> (r: bool)
        ensures
            r == (self@.input == InputMode::Edit),
    {
        self.input_mode == InputMode::Edit
    }

    /// Whether the cached directories are shown.
    pub fn is_history_search(&self) -> (r: bool)
        ensures
            r == (self@.view == ViewMode::HistoryFolderView),
    {
        self.view_mode == ViewMode::HistoryFolderView
    }

    /// Whether a file is shown.
    pub fn is_file_view(&self) -> (r: bool)
        ensures
            r == (self@.view == ViewMode::FileView),
    {
        self.view_mode == ViewMode::FileView
    }

    /// Goes back to the pair saved by the last transition, saving nothing itself.
    pub fn restore_previous_state(&mut self)
        ensures
            final(self)@ == (ModeState {
                input: old(self)@.prev_input,
                view: old(self)@.prev_view,
                ..old(self)@
            }),
    {
        self.input_mode = self.prev_input_mode;
        self.view_mode = self.prev_view_mode;
    }
}

} // verus!
