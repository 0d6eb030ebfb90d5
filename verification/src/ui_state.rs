//! The view modes of the desktop front end and the navigator's state, with
//! the decisions the front end takes on user events.
use vstd::prelude::*;
use crate::keyed::{views, KeyedSet};
use crate::path::{spec_starts_with, FolderPath, PathView};

verus! {

/// What the left sidebar shows.
#[derive(Debug, Clone, Copy, PartialEq, Eq, Structural)]
pub enum LeftSidebarMode {
    Directories,
    Collections,
    Hidden,
}

/// What the right sidebar shows.
#[derive(Debug, Clone, Copy, PartialEq, Eq, Structural)]
pub enum RightSidebarMode {
    Metadata,
    Operations,
    Hidden,
}

/// The main view of the application.
#[derive(Debug, Clone, Copy, PartialEq, Eq, Structural)]
pub enum ViewMode {
    Library,
    Develop,
    NoCatalog,
}

/// Whether the original image of a preview is still present.
#[derive(Debug, Clone, Copy, PartialEq, Eq, Structural, Hash)]
pub enum PreviewState {
    /// The original image is present.
    Present,
    OriginalMissing,
}

/// How previews are ordered.
#[derive(Debug, Clone, Copy, PartialEq, Eq, Structural)]
pub enum SortingOption {
    FileName,
}

impl SortingOption {
    /// The label shown for this option.
    pub fn label(&self) -> (r: String)
        ensures
            r@ == "Name"@,
    {
        match self {
            SortingOption::FileName => "Name".to_owned(),
        }
    }
}

/// An image of the catalog: where it is and its content hash.
pub struct Image {
    pub path: FolderPath,
    pub hash: String,
}

/// Clicking the left mode that is shown hides the sidebar; any other click
/// shows the clicked mode.
pub open spec fn left_mode_after(current: LeftSidebarMode, clicked: LeftSidebarMode) -> LeftSidebarMode {
    if current != LeftSidebarMode::Hidden && current == clicked {
        LeftSidebarMode::Hidden
    } else {
        clicked
    }
}

/// Clicking the right mode that is shown hides the sidebar; any other click
/// shows the clicked mode.
pub open spec fn right_mode_after(current: RightSidebarMode, clicked: RightSidebarMode) -> RightSidebarMode {
    if current != RightSidebarMode::Hidden && current == clicked {
        RightSidebarMode::Hidden
    } else {
        clicked
    }
}

/// The left sidebar mode after a click on `clicked`: clicking the mode that
/// is shown hides the sidebar, any other click shows the clicked mode.
pub fn left_sidebar_after_click(current: LeftSidebarMode, clicked: LeftSidebarMode) -> (r:
    LeftSidebarMode)
    ensures
        r == left_mode_after(current, clicked),
{
    if current != LeftSidebarMode::Hidden && current == clicked {
        LeftSidebarMode::Hidden
    } else {
        clicked
    }
}

/// The right sidebar mode after a click on `clicked`, by the same rule as the left one.
pub fn right_sidebar_after_click(current: RightSidebarMode, clicked: RightSidebarMode) -> (r:
    RightSidebarMode)
    ensures
        r == right_mode_after(current, clicked),
{
    if current != RightSidebarMode::Hidden && current == clicked {
        RightSidebarMode::Hidden
    } else {
        clicked
    }
}

/// The right sidebar that entering `mode` brings up: the operations for
/// developing, none for the library, and no change otherwise.
pub fn right_sidebar_for_view_mode(mode: ViewMode) -> (r: Option<RightSidebarMode>)
    ensures
        r == match mode {
            ViewMode::Develop => Some(RightSidebarMode::Operations),
            ViewMode::Library => Some(RightSidebarMode::Hidden),
            ViewMode::NoCatalog => None::<RightSidebarMode>,
        },
{
    match mode {
        ViewMode::Develop => Some(RightSidebarMode::Operations),
        ViewMode::Library => Some(RightSidebarMode::Hidden),
        ViewMode::NoCatalog => None,
    }
}

/// State of the folder navigator.
pub struct NavigatorState {
    pub expanded: KeyedSet<FolderPath>,
    pub selected: Option<FolderPath>,
    pub context_menu_root: Option<FolderPath>,
    pub context_menu_open: bool,
}

/// The mathematical value of a [`NavigatorState`].
pub struct NavigatorView {
    pub expanded: Set<PathView>,
    pub selected: Option<PathView>,
    pub context_menu_root: Option<PathView>,
    pub context_menu_open: bool,
}

/// The value of an optional path.
pub open spec fn opt_view(p: Option<FolderPath>) -> Option<PathView> {
    match p {
        Some(q) => Some(q@),
        None => None,
    }
}

impl View for NavigatorState {
    type V = NavigatorView;

    open spec fn view(&self) -> NavigatorView {
        NavigatorView {
            expanded: self.expanded@,
            selected: opt_view(self.selected),
            context_menu_root: opt_view(self.context_menu_root),
            context_menu_open: self.context_menu_open,
        }
    }
}

/// What selecting a folder asks of the front end.
pub struct SelectionUpdate {
    /// The selection request counter after the click.
    pub request_seq: u64,
    /// The request whose answer is awaited: `None` when the click cleared the selection.
    pub active_request_id: Option<u64>,
}

/// The expanded folders after a click on the arrow of `path`.
pub open spec fn toggled(expanded: Set<PathView>, path: PathView) -> Set<PathView> {
    if expanded.contains(path) {
        expanded.remove(path)
    } else {
        expanded.insert(path)
    }
}

/// The selection after a click on folder `path`: clicking the selected folder
/// clears the selection, any other folder becomes the selection.
pub open spec fn selection_after_click(selected: Option<PathView>, path: PathView) -> Option<PathView> {
    if selected == Some(path) {
        None
    } else {
        Some(path)
    }
}

/// The request counter after one more request (wrapping around).
pub open spec fn next_request(seq: u64) -> u64 {
    if seq == u64::MAX {
        0
    } else {
        (seq + 1) as u64
    }
}

impl NavigatorState {
    pub open spec fn wf(&self) -> bool {
        self.expanded.wf()
    }

    /// Nothing expanded or selected, no context menu.
    pub fn new() -> (r: Self)
        ensures
            r.wf(),
            r@ == (NavigatorView {
                expanded: Set::empty(),
                selected: None,
                context_menu_root: None,
                context_menu_open: false,
            }),
    {
        NavigatorState {
            expanded: KeyedSet::new(),
            selected: None,
            context_menu_root: None,
            context_menu_open: false,
        }
    }

    /// Collapses every folder.
    pub fn collapse_all(&mut self)
        requires
            old(self).wf(),
        ensures
            final(self).wf(),
            final(self)@ == (NavigatorView { expanded: Set::empty(), ..old(self)@ }),
    {
        self.expanded.clear();
    }

    /// Expands `path` if collapsed and collapses it if expanded; closes the context menu.
    pub fn toggle_directory(&mut self, path: FolderPath)
        requires
            old(self).wf(),
        ensures
            final(self).wf(),
            final(self)@ == (NavigatorView {
                expanded: toggled(old(self)@.expanded, path@),
                context_menu_root: None,
                context_menu_open: false,
                ..old(self)@
            }),
    {
        self.context_menu_open = false;
        self.context_menu_root = None;
        if self.expanded.contains(&path) {
            self.expanded.remove(&path);
        } else {
            self.expanded.insert(path);
        }
    }

    /// Opens the context menu of the root `path`.
    pub fn open_root_context_menu(&mut self, path: FolderPath)
        requires
            old(self).wf(),
        ensures
            final(self).wf(),
            final(self)@ == (NavigatorView {
                context_menu_root: Some(path@),
                context_menu_open: true,
                ..old(self)@
            }),
    {
        self.context_menu_root = Some(path);
        self.context_menu_open = true;
    }

    /// Closes the context menu.
    pub fn close_root_context_menu(&mut self)
        requires
            old(self).wf(),
        ensures
            final(self).wf(),
            final(self)@ == (NavigatorView {
                context_menu_root: None,
                context_menu_open: false,
                ..old(self)@
            }),
    {
        self.context_menu_open = false;
        self.context_menu_root = None;
    }

    /// A click on folder `path`: clicking the selected folder clears the
    /// selection, any other folder becomes the selection. Either way the
    /// context menu closes and the request counter advances; a new selection
    /// awaits the answer to the new request number.
    pub fn select_directory(&mut self, path: FolderPath, request_seq: u64) -> (r: SelectionUpdate)
        requires
            old(self).wf(),
        ensures
            final(self).wf(),
            r.request_seq == next_request(request_seq),
            final(self)@.selected == selection_after_click(old(self)@.selected, path@),
            old(self)@.selected == Some(path@) ==> {
                &&& final(self)@ == (NavigatorView {
                    selected: None,
                    context_menu_root: None,
                    context_menu_open: false,
                    ..old(self)@
                })
                &&& r.active_request_id == None::<u64>
            },
            old(self)@.selected != Some(path@) ==> {
                &&& final(self)@ == (NavigatorView {
                    selected: Some(path@),
                    context_menu_root: None,
                    context_menu_open: false,
                    ..old(self)@
                })
                &&& r.active_request_id == Some(next_request(request_seq))
            },
    {
        self.context_menu_open = false;
        self.context_menu_root = None;
        let seq = request_seq.wrapping_add(1);
        let same = match &self.selected {
            Some(s) => s.same_as(&path),
            None => false,
        };
        if same {
            self.selected = None;
            SelectionUpdate { request_seq: seq, active_request_id: None }
        } else {
            self.selected = Some(path);
            SelectionUpdate { request_seq: seq, active_request_id: Some(seq) }
        }
    }

    /// Whether a catalog answer for `request_id` about `selected_path` is
    /// still wanted: it must answer the awaited request, for the folder that
    /// is still selected.
    pub fn accepts_selection_result(
        &self,
        active_request_id: Option<u64>,
        request_id: u64,
        selected_path: &FolderPath,
    ) -> (r: bool)
        ensures
            r == (active_request_id == Some(request_id) && self@.selected == Some(selected_path@)),
    {
        if active_request_id != Some(request_id) {
            return false;
        }
        match &self.selected {
            Some(s) => s.same_as(selected_path),
            None => false,
        }
    }
}

/// Among `imported_dirs`, the deepest one that `selected` lies within (the
/// last such one when several are equally deep), if any.
pub fn find_root_for_selected(imported_dirs: &[FolderPath], selected: &FolderPath) -> (r: Option<
    FolderPath,
>)
    ensures
        match r {
            None => forall|i: int|
                0 <= i < imported_dirs@.len() ==> !spec_starts_with(
                    selected@,
                    #[trigger] imported_dirs@[i]@,
                ),
            Some(root) => exists|i: int|
                0 <= i < imported_dirs@.len() && root@ == imported_dirs@[i]@ && spec_starts_with(
                    selected@,
                    root@,
                ) && (forall|j: int|
                    0 <= j < imported_dirs@.len() && spec_starts_with(
                        selected@,
                        #[trigger] imported_dirs@[j]@,
                    ) ==> imported_dirs@[j]@.len() <= root@.len() && (j > i
                        ==> imported_dirs@[j]@.len() < root@.len())),
        },
{
    let mut best: Option<usize> = None;
    let n = imported_dirs.len();
    for i in 0..n
        invariant
            n == imported_dirs@.len(),
            match best {
                None => forall|j: int|
                    0 <= j < i ==> !spec_starts_with(selected@, #[trigger] imported_dirs@[j]@),
                Some(b) => b < i && spec_starts_with(selected@, imported_dirs@[b as int]@) && (
                forall|j: int|
                    0 <= j < i && spec_starts_with(selected@, #[trigger] imported_dirs@[j]@)
                        ==> imported_dirs@[j]@.len() <= imported_dirs@[b as int]@.len() && (j
                        > b ==> imported_dirs@[j]@.len() < imported_dirs@[b as int]@.len())),
            },
    {
        if selected.starts_with(&imported_dirs[i]) {
            match best {
                None => {
                    best = Some(i);
                },
                Some(b) => {
                    if imported_dirs[i].depth() >= imported_dirs[b].depth() {
                        best = Some(i);
                    }
                },
            }
        }
    }
    match best {
        None => None,
        Some(b) => Some(imported_dirs[b].duplicate()),
    }
}

} // verus!
