//! From a session's description to its script.
//!
//! The script is a list of lines. It prepares the session, then makes the
//! windows one after another in ascending order of their names, and in each
//! window the panes in ascending order of theirs.

use vstd::prelude::*;
use crate::commands::{
    change_directory, change_directory_line, export, export_line, interpreter, interpreter_line,
    kill_session, kill_session_line, new_session, new_session_line, new_window, new_window_line,
    push_line, push_str_line, rename_window, rename_window_line, select_first_window,
    select_first_window_line, select_pane, select_pane_line, title, title_line,
};
use crate::encode::{encoded_command, send_keys};
use crate::layout::{LayoutModel, PaneModel, TmuxLayout, TmuxPane, TmuxWindow, WindowModel};
use crate::ordered_map::{
    entries_in_order, keys_ascending, lemma_declaration_order_irrelevant, lemma_entries_in_order,
    lemma_walk_meets_every_entry, map_of, names_distinct, OrderedMap,
};
use crate::text::lines;
use crate::tiling::{do_preare_panel_tiled, tile_commands};

verus! {

/// The directory a child works in: its own where it names one, otherwise its
/// parent's.
pub open spec fn effective_root(parent: Seq<char>, child: Seq<char>) -> Seq<char> {
    if child.len() == 0 {
        parent
    } else {
        child
    }
}

/// The directory that a window works in, given its session's, or a pane,
/// given its window's.
pub fn resolve<'a>(parent_root: &'a str, child_root: &'a str) -> (root: &'a str)
    ensures
        root@ == effective_root(parent_root@, child_root@),
{
    if child_root.is_empty() {
        parent_root
    } else {
        child_root
    }
}

/// The line that changes to `root`, if a directory is named.
pub open spec fn directory_commands(root: Seq<char>) -> Seq<Seq<char>> {
    if root.len() == 0 {
        Seq::empty()
    } else {
        seq![change_directory_line(root)]
    }
}

/// The lines that export the variables `env`, in the order given.
pub open spec fn export_commands(env: Seq<(Seq<char>, Seq<char>)>) -> Seq<Seq<char>> {
    env.map_values(|e: (Seq<char>, Seq<char>)| export_line(e.0, e.1))
}

/// The blocks that hand over the commands `cmds`, in the order given.
pub open spec fn run_commands(cmds: Seq<Seq<char>>) -> Seq<Seq<char>> {
    cmds.map_values(|c: Seq<char>| encoded_command(c))
}

/// The lines of one pane: select it, change to its directory if it has one,
/// give it its title, export its variables in ascending order of their
/// names, and hand over its commands in the order in which they stand.
pub open spec fn pane_commands(name: Seq<char>, index: nat, pane: PaneModel) -> Seq<Seq<char>> {
    seq![select_pane_line(index)] + directory_commands(pane.root) + seq![title_line(name)]
        + export_commands(entries_in_order(pane.env)) + run_commands(pane.cmds)
}

/// The lines of the panes `panes` of a window that works in `window_root`.
/// Each pane is selected by its position in the list, counted from 0, and
/// works in the window's directory unless it names its own.
pub open spec fn panes_commands(
    window_root: Seq<char>,
    panes: Seq<(Seq<char>, PaneModel)>,
) -> Seq<Seq<char>>
    decreases panes.len(),
{
    if panes.len() == 0 {
        Seq::empty()
    } else {
        let last = panes.last();
        panes_commands(window_root, panes.drop_last()) + pane_commands(
            last.0,
            (panes.len() - 1) as nat,
            last.1.with_root(effective_root(window_root, last.1.root)),
        )
    }
}

/// The lines of one window: arrange as many panes as it has, then fill them
/// in ascending order of their names.
pub open spec fn window_commands(window: WindowModel) -> Seq<Seq<char>> {
    tile_commands(window.panes.len()) + panes_commands(
        window.root,
        entries_in_order(window.panes),
    )
}

/// The line that makes the window at `position` of a session: the first one
/// is there already and gets its name, every other one is created.
pub open spec fn window_line(position: nat, name: Seq<char>) -> Seq<char> {
    if position == 0 {
        rename_window_line(name)
    } else {
        new_window_line(name)
    }
}

/// The lines of the windows `windows` of a session that works in
/// `session_root`. Each window works in the session's directory unless it
/// names its own.
pub open spec fn windows_commands(
    session_root: Seq<char>,
    windows: Seq<(Seq<char>, WindowModel)>,
) -> Seq<Seq<char>>
    decreases windows.len(),
{
    if windows.len() == 0 {
        Seq::empty()
    } else {
        let last = windows.last();
        windows_commands(session_root, windows.drop_last()).push(
            window_line((windows.len() - 1) as nat, last.0),
        ) + window_commands(last.1.with_root(effective_root(session_root, last.1.root)))
    }
}

/// The lines that kill an older session of the same name, if that is asked
/// for. Whether there is such a session is not looked into.
pub open spec fn restart_commands(layout: LayoutModel) -> Seq<Seq<char>> {
    if layout.restart_if_exists {
        seq![kill_session_line(layout.name)]
    } else {
        Seq::empty()
    }
}

/// The lines that prepare a session: the start commands as they stand, the
/// kill of an older session if asked for, and the creation of the session.
pub open spec fn prepare_commands(layout: LayoutModel) -> Seq<Seq<char>> {
    (layout.on_start + restart_commands(layout)).push(new_session_line(layout.name))
}

/// The line that brings the first window to the front, where there is more
/// than one window.
pub open spec fn focus_commands(window_count: nat) -> Seq<Seq<char>> {
    if window_count > 1 {
        seq![select_first_window_line()]
    } else {
        Seq::empty()
    }
}

/// The whole script of a session.
pub open spec fn script(layout: LayoutModel) -> Seq<Seq<char>> {
    seq![interpreter_line()] + prepare_commands(layout) + windows_commands(
        layout.root,
        entries_in_order(layout.windows),
    ) + focus_commands(layout.windows.len())
}

/// Appends the lines of a pane that works in `root`, whatever directory the
/// pane itself names.
fn emit_pane(name: &str, index: usize, root: &str, pane: &TmuxPane, out: &mut Vec<String>)
    ensures
        lines(final(out)@) == lines(old(out)@) + pane_commands(
            name@,
            index as nat,
            pane@.with_root(root@),
        ),
        pane@.finite(),
{
    let ghost start = lines(out@);
    let ghost env = entries_in_order(pane.env@);
    let ghost cmds = pane@.cmds;
    push_line(out, select_pane(index));
    if !root.is_empty() {
        push_line(out, change_directory(root));
    }
    push_line(out, title(name));
    let ghost head = seq![select_pane_line(index as nat)] + directory_commands(root@) + seq![
        title_line(name@),
    ];
    assert(lines(out@) =~= start + head);
    let variables = pane.env.len();
    let mut i: usize = 0;
    while i < variables
        invariant
            i <= variables,
            variables == env.len(),
            variables == pane.env@.len(),
            env == entries_in_order(pane.env@),
            lines(out@) == start + head + export_commands(env.take(i as int)),
        decreases variables - i,
    {
        let line = export(pane.env.key_at(i).as_str(), pane.env.value_at(i).as_str());
        push_line(out, line);
        assert(env.take(i + 1) =~= env.take(i as int).push(env[i as int]));
        assert(lines(out@) =~= start + head + export_commands(env.take(i + 1)));
        i += 1;
    }
    assert(env.take(i as int) =~= env);
    let mut j: usize = 0;
    while j < pane.cmds.len()
        invariant
            j <= pane.cmds@.len(),
            cmds == pane@.cmds,
            lines(out@) == start + head + export_commands(env) + run_commands(cmds.take(j as int)),
        decreases pane.cmds@.len() - j,
    {
        push_line(out, send_keys(pane.cmds[j].as_str()));
        assert(cmds.take(j + 1) =~= cmds.take(j as int).push(cmds[j as int]));
        assert(lines(out@) =~= start + head + export_commands(env) + run_commands(
            cmds.take(j + 1),
        ));
        j += 1;
    }
    assert(cmds.take(j as int) =~= cmds);
}

/// Appends the lines of the pane `pane`, called `name`, at position `index`
/// of its window. The pane works in the directory that it names. No text is
/// looked into or changed: directory, names, values and commands go into the
/// lines as they are.
///
/// That the pane is finite holds of every pane; it is stated for the proofs
/// that start from it.
pub fn do_pane(name: &str, index: usize, pane: &TmuxPane, out: &mut Vec<String>)
    ensures
        lines(final(out)@) == lines(old(out)@) + pane_commands(name@, index as nat, pane@),
        pane@.finite(),
{
    emit_pane(name, index, pane.root.as_str(), pane, out);
}

/// Appends the lines of a window that has the panes `panes` and works in
/// `root`.
fn emit_window(root: &str, panes: &OrderedMap<TmuxPane>, out: &mut Vec<String>)
    ensures
        lines(final(out)@) == lines(old(out)@) + window_commands(
            (WindowModel { root: root@, panes: panes@ }),
        ),
        (WindowModel { root: root@, panes: panes@ }).finite(),
{
    let ghost start = lines(out@);
    let ghost walk = entries_in_order(panes@);
    let count = panes.len();
    do_preare_panel_tiled(count, out);
    let ghost head = tile_commands(count as nat);
    let mut index: usize = 0;
    while index < count
        invariant
            index <= count,
            count == walk.len(),
            count == panes@.len(),
            walk == entries_in_order(panes@),
            lines(out@) == start + head + panes_commands(root@, walk.take(index as int)),
            forall|k: int| 0 <= k < index ==> (#[trigger] walk[k]).1.finite(),
        decreases count - index,
    {
        let name = panes.key_at(index);
        let pane = panes.value_at(index);
        emit_pane(name.as_str(), index, resolve(root, pane.root.as_str()), pane, out);
        proof {
            let done = walk.take(index + 1);
            assert(done.drop_last() =~= walk.take(index as int));
            assert(done.last() == walk[index as int]);
        }
        index += 1;
    }
    assert(walk.take(index as int) =~= walk);
    proof {
        lemma_walk_meets_every_entry(panes@);
    }
}

/// Appends the lines of the window `windows`: the arrangement of its panes,
/// then the panes in ascending order of their names, each selected by its
/// position in that order. The window works in the directory that it names,
/// and so does every pane of it that names none; the window's own name is
/// not used.
pub fn do_window(_name: &str, windows: &TmuxWindow, out: &mut Vec<String>)
    ensures
        lines(final(out)@) == lines(old(out)@) + window_commands(windows@),
        windows@.finite(),
{
    emit_window(windows.root.as_str(), &windows.panes, out);
}

/// Appends the lines that prepare the session.
pub fn do_prepare(layout: &TmuxLayout, out: &mut Vec<String>)
    ensures
        lines(final(out)@) == lines(old(out)@) + prepare_commands(layout@),
{
    let ghost start = lines(out@);
    let ghost on_start = layout@.on_start;
    let mut i: usize = 0;
    while i < layout.on_start.len()
        invariant
            i <= layout.on_start@.len(),
            on_start == layout@.on_start,
            lines(out@) == start + on_start.take(i as int),
        decreases layout.on_start@.len() - i,
    {
        push_str_line(out, layout.on_start[i].as_str());
        assert(on_start.take(i + 1) =~= on_start.take(i as int).push(on_start[i as int]));
        i += 1;
    }
    assert(on_start.take(i as int) =~= on_start);
    if layout.restart_if_exists {
        push_line(out, kill_session(layout.name.as_str()));
    }
    push_line(out, new_session(layout.name.as_str()));
    assert(lines(out@) =~= start + prepare_commands(layout@));
}

/// Appends the whole script of the session `layout`: the line that names the
/// shell, the preparation, every window in ascending order of the names, and
/// at the end, where there is more than one window, the line that brings the
/// first one to the front. A window that names no directory works in the
/// session's.
///
/// The session is not changed, and there is no session for which this fails.
pub fn do_parse(layout: &TmuxLayout, out: &mut Vec<String>)
    ensures
        lines(final(out)@) == lines(old(out)@) + script(layout@),
        layout@.finite(),
{
    let ghost start = lines(out@);
    let ghost walk = entries_in_order(layout.windows@);
    push_str_line(out, interpreter());
    do_prepare(layout, out);
    let ghost head = seq![interpreter_line()] + prepare_commands(layout@);
    assert(lines(out@) =~= start + head);
    let count = layout.windows.len();
    let mut position: usize = 0;
    while position < count
        invariant
            position <= count,
            count == walk.len(),
            count == layout.windows@.len(),
            walk == entries_in_order(layout.windows@),
            lines(out@) == start + head + windows_commands(
                layout.root@,
                walk.take(position as int),
            ),
            forall|k: int| 0 <= k < position ==> (#[trigger] walk[k]).1.finite(),
        decreases count - position,
    {
        let name = layout.windows.key_at(position);
        let window = layout.windows.value_at(position);
        if position == 0 {
            push_line(out, rename_window(name.as_str()));
        } else {
            push_line(out, new_window(name.as_str()));
        }
        emit_window(resolve(layout.root.as_str(), window.root.as_str()), &window.panes, out);
        proof {
            let done = walk.take(position + 1);
            assert(done.drop_last() =~= walk.take(position as int));
            assert(done.last() == walk[position as int]);
        }
        position += 1;
    }
    assert(walk.take(position as int) =~= walk);
    proof {
        lemma_walk_meets_every_entry(layout.windows@);
    }
    if count > 1 {
        push_str_line(out, select_first_window());
    }
    assert(lines(out@) =~= start + script(layout@));
}

/// The script of a session without windows is the line that names the
/// shell, the start commands, the kill of an older session if asked for, and
/// the creation of the session: no window is made, and none is brought to
/// the front.
pub proof fn lemma_script_without_windows(layout: LayoutModel)
    requires
        layout.windows == Map::<Seq<char>, WindowModel>::empty(),
    ensures
        script(layout) == seq![interpreter_line()] + layout.on_start + restart_commands(layout)
            + seq![new_session_line(layout.name)],
{
    assert(layout.windows.dom() =~= Set::empty());
    assert(entries_in_order(layout.windows) =~= Seq::empty());
    assert(script(layout) =~= seq![interpreter_line()] + layout.on_start + restart_commands(layout)
        + seq![new_session_line(layout.name)]);
}

/// Windows, panes and variables are met in ascending order of their names,
/// each of them once: every walk that a script is made from is ascending
/// and stands for the whole map.
pub proof fn lemma_emission_order(layout: LayoutModel)
    requires
        layout.finite(),
    ensures
        keys_ascending(entries_in_order(layout.windows)),
        map_of(entries_in_order(layout.windows)) == layout.windows,
        forall|w: Seq<char>| #[trigger]
            layout.windows.contains_key(w) ==> {
                let panes = layout.windows[w].panes;
                &&& keys_ascending(entries_in_order(panes))
                &&& map_of(entries_in_order(panes)) == panes
                &&& forall|p: Seq<char>| #[trigger]
                    panes.contains_key(p) ==> {
                        let env = panes[p].env;
                        &&& keys_ascending(entries_in_order(env))
                        &&& map_of(entries_in_order(env)) == env
                    }
            },
{
    lemma_entries_in_order(layout.windows);
    assert forall|w: Seq<char>| #[trigger] layout.windows.contains_key(w) implies {
        let panes = layout.windows[w].panes;
        &&& keys_ascending(entries_in_order(panes))
        &&& map_of(entries_in_order(panes)) == panes
        &&& forall|p: Seq<char>| #[trigger]
            panes.contains_key(p) ==> {
                let env = panes[p].env;
                &&& keys_ascending(entries_in_order(env))
                &&& map_of(entries_in_order(env)) == env
            }
    } by {
        let window = layout.windows[w];
        assert(window.finite());
        lemma_entries_in_order(window.panes);
        assert forall|p: Seq<char>| #[trigger] window.panes.contains_key(p) implies {
            let env = window.panes[p].env;
            &&& keys_ascending(entries_in_order(env))
            &&& map_of(entries_in_order(env)) == env
        } by {
            assert(window.panes[p].finite());
            lemma_entries_in_order(window.panes[p].env);
        }
    }
}

/// The script does not depend on the order in which the windows were
/// declared: two lists of the same windows, each name once, give the same
/// script.
pub proof fn lemma_window_order_irrelevant(
    layout: LayoutModel,
    a: Seq<(Seq<char>, WindowModel)>,
    b: Seq<(Seq<char>, WindowModel)>,
)
    requires
        names_distinct(a),
        names_distinct(b),
        forall|e: (Seq<char>, WindowModel)| a.contains(e) <==> b.contains(e),
    ensures
        script(layout.with_windows(map_of(a))) == script(layout.with_windows(map_of(b))),
{
    lemma_declaration_order_irrelevant(a, b);
}

/// The lines of a window do not depend on the order in which its panes were
/// declared.
pub proof fn lemma_pane_order_irrelevant(
    window: WindowModel,
    a: Seq<(Seq<char>, PaneModel)>,
    b: Seq<(Seq<char>, PaneModel)>,
)
    requires
        names_distinct(a),
        names_distinct(b),
        forall|e: (Seq<char>, PaneModel)| a.contains(e) <==> b.contains(e),
    ensures
        window_commands(window.with_panes(map_of(a))) == window_commands(
            window.with_panes(map_of(b)),
        ),
{
    lemma_declaration_order_irrelevant(a, b);
}

/// The lines of a pane do not depend on the order in which its variables
/// were declared.
pub proof fn lemma_variable_order_irrelevant(
    name: Seq<char>,
    index: nat,
    pane: PaneModel,
    a: Seq<(Seq<char>, Seq<char>)>,
    b: Seq<(Seq<char>, Seq<char>)>,
)
    requires
        names_distinct(a),
        names_distinct(b),
        forall|e: (Seq<char>, Seq<char>)| a.contains(e) <==> b.contains(e),
    ensures
        pane_commands(name, index, pane.with_env(map_of(a))) == pane_commands(
            name,
            index,
            pane.with_env(map_of(b)),
        ),
{
    lemma_declaration_order_irrelevant(a, b);
}

} // verus!
