//! Arranging the panes of a window.
//!
//! A window starts with one pane. Every further pane is made by splitting,
//! and after every second split, the first one included, the panes are
//! arranged evenly again, so that none of them gets too small to be split.
//! A last arrangement follows in every case, also for a window of one pane or
//! of none.

use vstd::prelude::*;
use crate::commands::{
    lemma_split_is_not_tiled, push_str_line, split, split_line, tiled, tiled_line,
};
use crate::text::lines;

verus! {

/// The lines of split number `step`, counted from 0.
pub open spec fn split_step(step: nat) -> Seq<Seq<char>> {
    if step % 2 == 0 {
        seq![split_line(), tiled_line()]
    } else {
        seq![split_line()]
    }
}

/// The lines of the first `steps` splits.
pub open spec fn split_steps(steps: nat) -> Seq<Seq<char>>
    decreases steps,
{
    if steps == 0 {
        Seq::empty()
    } else {
        split_steps((steps - 1) as nat) + split_step((steps - 1) as nat)
    }
}

/// The number of splits that make `pane_count` panes.
pub open spec fn splits_for(pane_count: nat) -> nat {
    if pane_count > 1 {
        (pane_count - 1) as nat
    } else {
        0
    }
}

/// The lines that arrange a window of `pane_count` panes.
pub open spec fn tile_commands(pane_count: nat) -> Seq<Seq<char>> {
    split_steps(splits_for(pane_count)).push(tiled_line())
}

/// Appends the lines that arrange a window of `pane_count` panes.
pub fn do_preare_panel_tiled(pane_count: usize, out: &mut Vec<String>)
    ensures
        lines(final(out)@) == lines(old(out)@) + tile_commands(pane_count as nat),
{
    let ghost start = lines(out@);
    if pane_count > 1 {
        let mut i: usize = 0;
        while i < pane_count - 1
            invariant
                pane_count > 1,
                i <= pane_count - 1,
                lines(out@) == start + split_steps(i as nat),
            decreases pane_count - 1 - i,
        {
            push_str_line(out, split());
            if i % 2 == 0 {
                push_str_line(out, tiled());
            }
            assert(lines(out@) =~= start + split_steps((i + 1) as nat));
            i += 1;
        }
    }
    push_str_line(out, tiled());
    assert(lines(out@) =~= start + tile_commands(pane_count as nat));
}

/// The number of lines of the first `steps` splits: one for each split and
/// one more for every second of them, the first included.
proof fn lemma_split_steps_len(steps: nat)
    ensures
        split_steps(steps).len() == steps + (steps + 1) / 2,
    decreases steps,
{
    if steps > 0 {
        lemma_split_steps_len((steps - 1) as nat);
    }
}

/// Every window ends up arranged evenly: the last line of an arrangement is
/// the even arrangement, whatever the number of panes. A window of one pane
/// or of none is arranged and not split. A window of more panes takes one
/// split less than it has panes, and one more arrangement for every second
/// split.
pub proof fn lemma_tile_commands(pane_count: nat)
    ensures
        tile_commands(pane_count).last() == tiled_line(),
        pane_count <= 1 ==> tile_commands(pane_count) == seq![tiled_line()],
        tile_commands(pane_count).len() == splits_for(pane_count) + (splits_for(pane_count) + 1)
            / 2 + 1,
        split_line() != tiled_line(),
{
    lemma_split_steps_len(splits_for(pane_count));
    if pane_count <= 1 {
        assert(tile_commands(pane_count) =~= seq![tiled_line()]);
    }
    lemma_split_is_not_tiled();
}

} // verus!
