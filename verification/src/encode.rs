//! Handing a command to a pane.
//!
//! A command may hold quotes and line breaks, so it is not put between quotes
//! on a command line. It is written as a here-document instead, whose text a
//! shell variable takes; the variable's value is then typed into the pane as
//! one argument, followed by the key that runs it.
//!
//! The second half of this file says what a shell makes of such a block, as
//! far as the rules of the shell language fix it, and on which commands the
//! variable ends up holding the command as it was written.

use vstd::prelude::*;
use crate::commands::framed;

verus! {

/// What stands before the command: the variable takes what `cat` reads from
/// the here-document that begins on the next line.
pub open spec fn heredoc_open() -> Seq<char> {
    "cmd=$(cat <<EOF\n"@
}

/// What stands after the command: the line that ends the here-document, then
/// the typing of the variable's value into the pane.
pub open spec fn heredoc_close() -> Seq<char> {
    "\nEOF\n); tmux send-keys \"$cmd\" 'C-m'\n    "@
}

/// The block of lines that hands `cmd` to the current pane.
pub open spec fn encoded_command(cmd: Seq<char>) -> Seq<char> {
    heredoc_open() + cmd + heredoc_close()
}

/// Writes the block of lines that hands `cmd` to the current pane. The
/// command stands in the block unchanged, character for character.
pub fn send_keys(cmd: &str) -> (block: String)
    ensures
        block@ == encoded_command(cmd@),
{
    framed("cmd=$(cat <<EOF\n", cmd, "\nEOF\n); tmux send-keys \"$cmd\" 'C-m'\n    ")
}

/// The word that ends the here-document when it stands alone on a line.
pub open spec fn delimiter() -> Seq<char> {
    seq!['E', 'O', 'F']
}

/// The number of characters of `text` before its first line break, or all
/// of them if it has none.
pub open spec fn line_length(text: Seq<char>) -> nat
    decreases text.len(),
{
    if text.len() == 0 || text[0] == '\n' {
        0
    } else {
        1 + line_length(text.drop_first())
    }
}

/// One of the lines of `text` is `line`. A text has one line more than it
/// has line breaks.
pub open spec fn has_line(text: Seq<char>, line: Seq<char>) -> bool
    decreases text.len(),
{
    let n = line_length(text) as int;
    text.take(n) == line || (n < text.len() && has_line(text.skip(n + 1), line))
}

/// The text of a here-document that begins with `text`: the lines before
/// the first line that is the delimiter, each with its line break. There is
/// none where no such line follows.
pub open spec fn heredoc_body(text: Seq<char>) -> Option<Seq<char>>
    decreases text.len(),
{
    let n = line_length(text) as int;
    if n >= text.len() {
        None
    } else if text.take(n) == delimiter() {
        Some(Seq::empty())
    } else {
        match heredoc_body(text.skip(n + 1)) {
            Some(rest) => Some(text.take(n + 1) + rest),
            None => None,
        }
    }
}

/// A shell takes the text of a here-document as it stands: no character of
/// it is a `$` or a backquote, with which an expansion begins, none is the
/// null character, and every backslash is followed by a character that it
/// does not escape (in a here-document it escapes `$`, a backquote, another
/// backslash and a line break).
pub open spec fn taken_literally(body: Seq<char>) -> bool {
    forall|i: int|
        0 <= i < body.len() ==> {
            &&& #[trigger] body[i] != '$'
            &&& body[i] != '`'
            &&& body[i] != '\0'
            &&& body[i] == '\\' ==> i + 1 < body.len() && body[i + 1] != '\\' && body[i + 1]
                != '\n'
        }
}

/// `text` without the line breaks at its end: what a command substitution
/// keeps of the output of its command.
pub open spec fn without_final_line_breaks(text: Seq<char>) -> Seq<char>
    decreases text.len(),
{
    if text.len() > 0 && text.last() == '\n' {
        without_final_line_breaks(text.drop_last())
    } else {
        text
    }
}

/// What the variable holds once a shell has read `block`: the text of the
/// here-document, passed through `cat`, without the line breaks at its end.
/// There is no answer where `block` does not begin as an encoded command
/// does, where its here-document does not end, or where the shell would
/// change the text before `cat` reads it.
pub open spec fn delivered_text(block: Seq<char>) -> Option<Seq<char>> {
    if heredoc_open().is_prefix_of(block) {
        match heredoc_body(block.skip(heredoc_open().len() as int)) {
            Some(body) => if taken_literally(body) {
                Some(without_final_line_breaks(body))
            } else {
                None
            },
            None => None,
        }
    } else {
        None
    }
}

/// The commands that come through unchanged: a shell takes them as they
/// stand also when a line break follows, none of their lines is the
/// delimiter, and they do not end in a line break.
pub open spec fn delivered_unchanged(cmd: Seq<char>) -> bool {
    &&& taken_literally(cmd.push('\n'))
    &&& !has_line(cmd, delimiter())
    &&& !(cmd.len() > 0 && cmd.last() == '\n')
}

/// Where the first line of a text ends.
proof fn lemma_line_length(text: Seq<char>)
    ensures
        line_length(text) <= text.len(),
        forall|j: int| 0 <= j < line_length(text) ==> text[j] != '\n',
        line_length(text) < text.len() ==> text[line_length(text) as int] == '\n',
    decreases text.len(),
{
    if text.len() > 0 && text[0] != '\n' {
        let rest = text.drop_first();
        lemma_line_length(rest);
        assert forall|j: int| 0 <= j < line_length(text) implies text[j] != '\n' by {
            if j > 0 {
                assert(text[j] == rest[j - 1]);
            }
        }
    }
}

/// The first line of a text ends at the first line break.
proof fn lemma_line_ends_at(text: Seq<char>, n: int)
    requires
        0 <= n <= text.len(),
        forall|j: int| 0 <= j < n ==> text[j] != '\n',
        n < text.len() ==> text[n] == '\n',
    ensures
        line_length(text) == n,
    decreases n,
{
    if n > 0 {
        let rest = text.drop_first();
        assert(text[0] != '\n');
        assert forall|j: int| 0 <= j < n - 1 implies rest[j] != '\n' by {
            assert(rest[j] == text[j + 1]);
        }
        lemma_line_ends_at(rest, n - 1);
    }
}

/// The closing part of a block begins with a line break, the delimiter and
/// another line break.
proof fn lemma_close_begins_with_delimiter()
    ensures
        heredoc_close().len() >= 5,
        heredoc_close().take(5) == seq!['\n'] + delimiter() + seq!['\n'],
{
    reveal_strlit("\nEOF\n); tmux send-keys \"$cmd\" 'C-m'\n    ");
    assert(heredoc_close().take(5) =~= seq!['\n'] + delimiter() + seq!['\n']);
}

/// A here-document whose first line is the delimiter is empty.
proof fn lemma_body_at_delimiter(text: Seq<char>)
    requires
        text.len() >= 4,
        text.take(3) == delimiter(),
        text[3] == '\n',
    ensures
        heredoc_body(text) == Some(Seq::<char>::empty()),
{
    assert forall|j: int| 0 <= j < 3 implies text[j] != '\n' by {
        assert(text[j] == text.take(3)[j]);
    }
    lemma_line_ends_at(text, 3);
}

/// A command none of whose lines is the delimiter is the text of its
/// here-document, with one line break after it.
proof fn lemma_body_whole(cmd: Seq<char>, after: Seq<char>)
    requires
        !has_line(cmd, delimiter()),
        after.len() >= 5,
        after.take(5) == seq!['\n'] + delimiter() + seq!['\n'],
    ensures
        heredoc_body(cmd + after) == Some(cmd.push('\n')),
    decreases cmd.len(),
{
    let text = cmd + after;
    let n = line_length(cmd) as int;
    lemma_line_length(cmd);
    assert(after[0] == after.take(5)[0]);
    assert forall|j: int| 0 <= j < n implies text[j] != '\n' by {
        assert(text[j] == cmd[j]);
    }
    lemma_line_ends_at(text, n);
    assert(text.take(n) =~= cmd.take(n));
    if n == cmd.len() {
        let rest = text.skip(n + 1);
        assert(rest =~= after.skip(1));
        assert(rest.take(3) =~= delimiter()) by {
            assert forall|j: int| 0 <= j < 3 implies rest.take(3)[j] == delimiter()[j] by {
                assert(rest[j] == after.take(5)[j + 1]);
            }
        }
        assert(rest[3] == after.take(5)[4]);
        lemma_body_at_delimiter(rest);
        assert(text.take(n + 1) + Seq::<char>::empty() =~= cmd.push('\n'));
    } else {
        let left = cmd.skip(n + 1);
        assert(text.skip(n + 1) =~= left + after);
        lemma_body_whole(left, after);
        assert(text.take(n + 1) + left.push('\n') =~= cmd.push('\n'));
    }
}

/// Where a line of the command is the delimiter, the here-document ends
/// there: its text is shorter than the command.
proof fn lemma_body_cut_short(cmd: Seq<char>, after: Seq<char>)
    requires
        has_line(cmd, delimiter()),
        after.len() >= 5,
        after.take(5) == seq!['\n'] + delimiter() + seq!['\n'],
    ensures
        heredoc_body(cmd + after) is Some,
        heredoc_body(cmd + after)->0.len() < cmd.len(),
    decreases cmd.len(),
{
    let text = cmd + after;
    let n = line_length(cmd) as int;
    lemma_line_length(cmd);
    assert(after[0] == after.take(5)[0]);
    assert forall|j: int| 0 <= j < n implies text[j] != '\n' by {
        assert(text[j] == cmd[j]);
    }
    lemma_line_ends_at(text, n);
    assert(text.take(n) =~= cmd.take(n));
    if cmd.take(n) == delimiter() {
        assert(cmd.take(n).len() == 3);
    } else {
        let left = cmd.skip(n + 1);
        assert(text.skip(n + 1) =~= left + after);
        lemma_body_cut_short(left, after);
    }
}

/// Taking the final line breaks off makes no text longer.
proof fn lemma_without_final_line_breaks(text: Seq<char>)
    ensures
        without_final_line_breaks(text).len() <= text.len(),
    decreases text.len(),
{
    if text.len() > 0 && text.last() == '\n' {
        lemma_without_final_line_breaks(text.drop_last());
    }
}

/// A command comes through unchanged: read by a shell, the block written
/// for it leaves the variable holding the command character for character,
/// quotes and line breaks within it included. This holds of the commands of
/// [`delivered_unchanged`].
pub proof fn lemma_command_delivered(cmd: Seq<char>)
    requires
        delivered_unchanged(cmd),
    ensures
        delivered_text(encoded_command(cmd)) == Some(cmd),
{
    let block = encoded_command(cmd);
    let open = heredoc_open();
    lemma_close_begins_with_delimiter();
    assert(block.skip(open.len() as int) =~= cmd + heredoc_close());
    lemma_body_whole(cmd, heredoc_close());
    assert(open.is_prefix_of(block)) by {
        assert(block.subrange(0, open.len() as int) =~= open);
    }
    let body = cmd.push('\n');
    assert(body.drop_last() =~= cmd);
    assert(without_final_line_breaks(cmd) == cmd);
    assert(without_final_line_breaks(body) == without_final_line_breaks(body.drop_last()));
}

/// Of every other command the shell makes something else, or nothing that
/// the rules of the shell language fix.
pub proof fn lemma_command_not_delivered(cmd: Seq<char>)
    requires
        !delivered_unchanged(cmd),
    ensures
        delivered_text(encoded_command(cmd)) != Some(cmd),
{
    let block = encoded_command(cmd);
    let open = heredoc_open();
    lemma_close_begins_with_delimiter();
    assert(block.skip(open.len() as int) =~= cmd + heredoc_close());
    if has_line(cmd, delimiter()) {
        lemma_body_cut_short(cmd, heredoc_close());
        lemma_without_final_line_breaks(heredoc_body(cmd + heredoc_close())->0);
    } else {
        lemma_body_whole(cmd, heredoc_close());
        if cmd.len() > 0 && cmd.last() == '\n' {
            let body = cmd.push('\n');
            assert(body.drop_last() =~= cmd);
            assert(without_final_line_breaks(body) == without_final_line_breaks(cmd));
            assert(without_final_line_breaks(cmd) == without_final_line_breaks(cmd.drop_last()));
            lemma_without_final_line_breaks(cmd.drop_last());
        }
    }
}

} // verus!
