//! The description of a session: its windows, their panes, and what runs in
//! each pane.
//!
//! An empty `root` means that no directory is named at that level: a window
//! then works in the session's directory, a pane in its window's.

use vstd::prelude::*;
use crate::ordered_map::OrderedMap;

verus! {

/// One terminal of a window.
#[derive(Clone, Debug, PartialEq)]
pub struct TmuxPane {
    /// The directory the pane works in; empty to take the window's.
    pub root: String,
    /// Environment variables to export in the pane, by name.
    pub env: OrderedMap<String>,
    /// The commands to run in the pane, in this order.
    pub cmds: Vec<String>,
}

/// One window of a session.
#[derive(Clone, Debug, PartialEq)]
pub struct TmuxWindow {
    /// The directory the window works in; empty to take the session's.
    pub root: String,
    /// The panes of the window, by name.
    pub panes: OrderedMap<TmuxPane>,
}

/// A whole session.
#[derive(Clone, Debug, PartialEq)]
pub struct TmuxLayout {
    /// The name of the session.
    pub name: String,
    /// The directory the session works in; empty for none.
    pub root: String,
    /// Whether a session of the same name is killed first.
    pub restart_if_exists: bool,
    /// Command lines to run before the session is created, in this order.
    pub on_start: Vec<String>,
    /// The windows of the session, by name.
    pub windows: OrderedMap<TmuxWindow>,
}

/// What a pane is, as plain values.
pub struct PaneModel {
    pub root: Seq<char>,
    pub env: Map<Seq<char>, Seq<char>>,
    pub cmds: Seq<Seq<char>>,
}

/// What a window is, as plain values.
pub struct WindowModel {
    pub root: Seq<char>,
    pub panes: Map<Seq<char>, PaneModel>,
}

/// What a session is, as plain values.
pub struct LayoutModel {
    pub name: Seq<char>,
    pub root: Seq<char>,
    pub restart_if_exists: bool,
    pub on_start: Seq<Seq<char>>,
    pub windows: Map<Seq<char>, WindowModel>,
}

impl View for TmuxPane {
    type V = PaneModel;

    open spec fn view(&self) -> PaneModel {
        PaneModel {
            root: self.root@,
            env: self.env@,
            cmds: self.cmds@.map_values(|c: String| c@),
        }
    }
}

impl View for TmuxWindow {
    type V = WindowModel;

    open spec fn view(&self) -> WindowModel {
        WindowModel { root: self.root@, panes: self.panes@ }
    }
}

impl View for TmuxLayout {
    type V = LayoutModel;

    open spec fn view(&self) -> LayoutModel {
        LayoutModel {
            name: self.name@,
            root: self.root@,
            restart_if_exists: self.restart_if_exists,
            on_start: self.on_start@.map_values(|c: String| c@),
            windows: self.windows@,
        }
    }
}

impl PaneModel {
    /// The same pane, working in `root`.
    pub open spec fn with_root(self, root: Seq<char>) -> PaneModel {
        PaneModel { root, env: self.env, cmds: self.cmds }
    }

    /// The same pane, exporting the variables `env`.
    pub open spec fn with_env(self, env: Map<Seq<char>, Seq<char>>) -> PaneModel {
        PaneModel { root: self.root, env, cmds: self.cmds }
    }

    /// The pane names finitely many variables.
    pub open spec fn finite(self) -> bool {
        self.env.dom().finite()
    }
}

impl WindowModel {
    /// The same window, working in `root`.
    pub open spec fn with_root(self, root: Seq<char>) -> WindowModel {
        WindowModel { root, panes: self.panes }
    }

    /// The same window, with the panes `panes`.
    pub open spec fn with_panes(self, panes: Map<Seq<char>, PaneModel>) -> WindowModel {
        WindowModel { root: self.root, panes }
    }

    /// The window has finitely many panes, each of them finite.
    pub open spec fn finite(self) -> bool {
        &&& self.panes.dom().finite()
        &&& forall|name: Seq<char>| self.panes.contains_key(name) ==> #[trigger] self.panes[name].finite()
    }
}

impl LayoutModel {
    /// The same session, with the windows `windows`.
    pub open spec fn with_windows(self, windows: Map<Seq<char>, WindowModel>) -> LayoutModel {
        LayoutModel {
            name: self.name,
            root: self.root,
            restart_if_exists: self.restart_if_exists,
            on_start: self.on_start,
            windows,
        }
    }

    /// The session has finitely many windows, each of them finite.
    pub open spec fn finite(self) -> bool {
        &&& self.windows.dom().finite()
        &&& forall|name: Seq<char>|
            self.windows.contains_key(name) ==> #[trigger] self.windows[name].finite()
    }
}

impl Default for TmuxPane {
    /// A pane that names no directory, no variable and no command.
    fn default() -> (pane: Self)
        ensures
            pane@.root == Seq::<char>::empty(),
            pane@.env == Map::<Seq<char>, Seq<char>>::empty(),
            pane@.cmds == Seq::<Seq<char>>::empty(),
    {
        let pane = TmuxPane { root: String::new(), env: OrderedMap::new(), cmds: Vec::new() };
        assert(pane@.cmds =~= Seq::<Seq<char>>::empty());
        pane
    }
}

} // verus!
