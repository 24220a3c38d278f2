//! The single lines of a generated script.
//!
//! Each kind of line has a spec function that says what the line is, and a
//! function that writes it. Names, directories and values are put into the
//! lines as they are, without quoting or escaping.

use vstd::prelude::*;
use crate::text::{decimal, decimal_string, lines};

verus! {

/// The first line of every script: it names the shell that runs it.
pub open spec fn interpreter_line() -> Seq<char> {
    "#!/bin/sh"@
}

/// Kills the session called `name`.
pub open spec fn kill_session_line(name: Seq<char>) -> Seq<char> {
    "tmux kill-session -t "@ + name
}

/// Creates a detached session called `name`.
pub open spec fn new_session_line(name: Seq<char>) -> Seq<char> {
    "tmux new-session -d -s "@ + name
}

/// Gives the current window the name `name`.
pub open spec fn rename_window_line(name: Seq<char>) -> Seq<char> {
    "tmux rename-window '"@ + name + "'"@
}

/// Creates a window called `name`.
pub open spec fn new_window_line(name: Seq<char>) -> Seq<char> {
    "tmux new-window -n '"@ + name + "'"@
}

/// Brings the first window to the front.
pub open spec fn select_first_window_line() -> Seq<char> {
    "tmux select-window -t 0"@
}

/// Splits the current pane in two, side by side.
pub open spec fn split_line() -> Seq<char> {
    "tmux splitw -h"@
}

/// Arranges the panes of the current window evenly.
pub open spec fn tiled_line() -> Seq<char> {
    "tmux select-layout tiled"@
}

/// Selects the pane at position `index` of the current window.
pub open spec fn select_pane_line(index: nat) -> Seq<char> {
    "tmux selectp -t "@ + decimal(index)
}

/// Types a change to the directory `root` into the current pane.
pub open spec fn change_directory_line(root: Seq<char>) -> Seq<char> {
    "tmux send-keys 'cd "@ + root + "' 'C-m'"@
}

/// Gives the current pane the title `name`.
pub open spec fn title_line(name: Seq<char>) -> Seq<char> {
    "tmux select-pane -T '"@ + name + "'"@
}

/// Types an export of the variable `name` with the value `value` into the
/// current pane.
pub open spec fn export_line(name: Seq<char>, value: Seq<char>) -> Seq<char> {
    "tmux send-keys 'export "@ + name + "="@ + value + "' 'C-m'"@
}

/// To split and to arrange are different lines.
pub proof fn lemma_split_is_not_tiled()
    ensures
        split_line() != tiled_line(),
{
    reveal_strlit("tmux splitw -h");
    reveal_strlit("tmux select-layout tiled");
    assert(split_line().len() != tiled_line().len());
}

/// Appends `line` to the script.
pub(crate) fn push_line(out: &mut Vec<String>, line: String)
    ensures
        lines(final(out)@) == lines(old(out)@).push(line@),
{
    out.push(line);
    assert(lines(out@) =~= lines(old(out)@).push(line@));
}

/// Appends the line `text` to the script.
pub(crate) fn push_str_line(out: &mut Vec<String>, text: &str)
    ensures
        lines(final(out)@) == lines(old(out)@).push(text@),
{
    push_line(out, text.to_owned());
}

/// The line made of `head` and `body`, one after the other.
pub(crate) fn prefixed(head: &str, body: &str) -> (line: String)
    ensures
        line@ == head@ + body@,
{
    let mut line = head.to_owned();
    line.append(body);
    line
}

/// The line made of `head`, `body` and `tail`, one after the other.
pub(crate) fn framed(head: &str, body: &str, tail: &str) -> (line: String)
    ensures
        line@ == head@ + body@ + tail@,
{
    let mut line = prefixed(head, body);
    line.append(tail);
    line
}

/// Writes the first line of a script.
pub(crate) fn interpreter() -> (line: &'static str)
    ensures
        line@ == interpreter_line(),
{
    "#!/bin/sh"
}

/// Writes the line that kills the session called `name`.
pub(crate) fn kill_session(name: &str) -> (line: String)
    ensures
        line@ == kill_session_line(name@),
{
    prefixed("tmux kill-session -t ", name)
}

/// Writes the line that creates the session called `name`.
pub(crate) fn new_session(name: &str) -> (line: String)
    ensures
        line@ == new_session_line(name@),
{
    prefixed("tmux new-session -d -s ", name)
}

/// Writes the line that gives the current window the name `name`.
pub(crate) fn rename_window(name: &str) -> (line: String)
    ensures
        line@ == rename_window_line(name@),
{
    framed("tmux rename-window '", name, "'")
}

/// Writes the line that creates a window called `name`.
pub(crate) fn new_window(name: &str) -> (line: String)
    ensures
        line@ == new_window_line(name@),
{
    framed("tmux new-window -n '", name, "'")
}

/// Writes the line that brings the first window to the front.
pub(crate) fn select_first_window() -> (line: &'static str)
    ensures
        line@ == select_first_window_line(),
{
    "tmux select-window -t 0"
}

/// Writes the line that splits the current pane.
pub(crate) fn split() -> (line: &'static str)
    ensures
        line@ == split_line(),
{
    "tmux splitw -h"
}

/// Writes the line that arranges the panes evenly.
pub(crate) fn tiled() -> (line: &'static str)
    ensures
        line@ == tiled_line(),
{
    "tmux select-layout tiled"
}

/// Writes the line that selects the pane at position `index`.
pub(crate) fn select_pane(index: usize) -> (line: String)
    ensures
        line@ == select_pane_line(index as nat),
{
    prefixed("tmux selectp -t ", decimal_string(index).as_str())
}

/// Writes the line that changes to the directory `root`.
pub(crate) fn change_directory(root: &str) -> (line: String)
    ensures
        line@ == change_directory_line(root@),
{
    framed("tmux send-keys 'cd ", root, "' 'C-m'")
}

/// Writes the line that gives the current pane the title `name`.
pub(crate) fn title(name: &str) -> (line: String)
    ensures
        line@ == title_line(name@),
{
    framed("tmux select-pane -T '", name, "'")
}

/// Writes the line that exports the variable `name` with the value `value`.
pub(crate) fn export(name: &str, value: &str) -> (line: String)
    ensures
        line@ == export_line(name@, value@),
{
    let mut line = framed("tmux send-keys 'export ", name, "=");
    line.append(value);
    line.append("' 'C-m'");
    line
}

} // verus!
