//! Host-facing data: the input mode, per-tab facts, and the behavioral
//! configuration that the layout reads.

use vstd::prelude::*;

verus! {

/// The host's input mode; the bar shows a label for the current one.
#[derive(Clone, Copy, PartialEq, Eq, Structural, Debug)]
pub enum InputMode {
    Normal,
    Locked,
    Resize,
    Pane,
    Tab,
    Scroll,
    EnterSearch,
    Search,
    RenameTab,
    RenamePane,
    Session,
    Move,
    Prompt,
    Tmux,
}

/// What the bar reads of one tab: its stable position in the tab order,
/// whether it is the active tab, and whether its panes are synchronized.
#[derive(Clone, Copy)]
pub struct TabInfo {
    pub position: usize,
    pub active: bool,
    pub is_sync_panes_active: bool,
}

/// The configuration options that affect the bar's text and layout.
/// Styling options (colors) do not affect width arithmetic and live with
/// the host-facing rendering code.
pub struct UserConfiguration {
    pub default_tab_name: String,
    pub display_session_directory: bool,
    pub mode_display: Vec<(InputMode, String)>,
}

/// The display label of the first entry for `mode`.
pub open spec fn mode_label(md: Seq<(InputMode, String)>, mode: InputMode) -> Seq<char>
    decreases md.len(),
{
    if md.len() == 0 {
        Seq::empty()
    } else if md[0].0 == mode {
        md[0].1@
    } else {
        mode_label(md.drop_first(), mode)
    }
}

/// Whether the configuration carries a label for `mode`.
pub open spec fn has_mode(md: Seq<(InputMode, String)>, mode: InputMode) -> bool
    decreases md.len(),
{
    md.len() > 0 && (md[0].0 == mode || has_mode(md.drop_first(), mode))
}

/// Looks up the display label configured for `mode`.
pub fn lookup_mode<'a>(md: &'a Vec<(InputMode, String)>, mode: InputMode) -> (r: &'a String)
    requires
        has_mode(md@, mode),
    ensures
        r@ == mode_label(md@, mode),
{
    let mut i: usize = 0;
    proof {
        assert(md@.skip(0) =~= md@);
    }
    while i < md.len()
        invariant
            0 <= i <= md@.len(),
            has_mode(md@.skip(i as int), mode),
            mode_label(md@.skip(i as int), mode) == mode_label(md@, mode),
        decreases md@.len() - i,
    {
        proof {
            let rest = md@.skip(i as int);
            assert(rest[0] == md@[i as int]);
            assert(rest.drop_first() =~= md@.skip(i + 1));
        }
        if md[i].0 == mode {
            return &md[i].1;
        }
        i = i + 1;
    }
    proof {
        assert(md@.skip(md@.len() as int) =~= Seq::<(InputMode, String)>::empty());
        assert(false);
    }
    &md[0].1
}

} // verus!
