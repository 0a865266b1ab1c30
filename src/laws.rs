use vstd::prelude::*;

use crate::maze::{
    delta_col, delta_row, is_label, leads_to_hole, open_at, reachable, roll, walk, well_formed, RollEnd,
};

verus! {

/// A roll only falls into the hole from the cell just before it in the
/// direction of travel: either the roll starts there or passes over it, and
/// then that cell is open.
pub proof fn lemma_roll_enters_from_neighbor(maze: Seq<Vec<usize>>, dest: (int, int), r: int, c: int, ch: char)
    requires
        roll(maze, dest, r, c, ch) is Hole,
    ensures
        (r == dest.0 - delta_row(ch) && c == dest.1 - delta_col(ch))
            || open_at(maze, dest.0 - delta_row(ch), dest.1 - delta_col(ch)),
    decreases crate::maze::room(maze, r, c, ch),
{
    let nr = r + delta_row(ch);
    let nc = c + delta_col(ch);
    if is_label(ch) && open_at(maze, nr, nc) && !(nr == dest.0 && nc == dest.1) {
        lemma_roll_enters_from_neighbor(maze, dest, nr, nc, ch);
    }
}

/// A roll that comes to rest stays where it started or stops on an open cell.
pub proof fn lemma_roll_rests_open(maze: Seq<Vec<usize>>, dest: (int, int), r: int, c: int, ch: char)
    ensures
        match roll(maze, dest, r, c, ch) {
            RollEnd::Rest { row, col, dist } => (row == r && col == c) || open_at(maze, row, col),
            RollEnd::Hole { dist } => true,
        },
    decreases crate::maze::room(maze, r, c, ch),
{
    let nr = r + delta_row(ch);
    let nc = c + delta_col(ch);
    if is_label(ch) && open_at(maze, nr, nc) && !(nr == dest.0 && nc == dest.1) {
        lemma_roll_rests_open(maze, dest, nr, nc, ch);
    }
}

/// From an open start, every walk ends on an open cell.
pub proof fn lemma_walk_ends_open(maze: Seq<Vec<usize>>, start: (int, int), dest: (int, int), p: Seq<char>)
    requires
        open_at(maze, start.0, start.1),
    ensures
        walk(maze, dest, start, p) matches Some((r, c, k)) ==> open_at(maze, r, c),
    decreases p.len(),
{
    if p.len() > 0 {
        lemma_walk_ends_open(maze, start, dest, p.drop_last());
        if let Some((r, c, k)) = walk(maze, dest, start, p.drop_last()) {
            lemma_roll_rests_open(maze, dest, r, c, p.last());
        }
    }
}

/// When every neighbour of the hole is a wall or lies outside the maze, no
/// roll can end in it, so no path from an open start leads into it.
pub proof fn lemma_enclosed_hole_unreachable(maze: Seq<Vec<usize>>, start: (int, int), dest: (int, int))
    requires
        open_at(maze, start.0, start.1),
        !open_at(maze, dest.0 - 1, dest.1),
        !open_at(maze, dest.0 + 1, dest.1),
        !open_at(maze, dest.0, dest.1 - 1),
        !open_at(maze, dest.0, dest.1 + 1),
    ensures
        !reachable(maze, start, dest),
{
    assert forall|p: Seq<char>| !leads_to_hole(maze, start, dest, p) by {
        if leads_to_hole(maze, start, dest, p) {
            lemma_walk_ends_open(maze, start, dest, p.drop_last());
            if let Some((r, c, k)) = walk(maze, dest, start, p.drop_last()) {
                lemma_roll_enters_from_neighbor(maze, dest, r, c, p.last());
            }
        }
    }
}

/// In a maze of a single row the ball cannot move up or down, and in one of a
/// single column it cannot move left or right: such rolls end where they start.
pub proof fn lemma_single_line_rolls(maze: Seq<Vec<usize>>, dest: (int, int), r: int, c: int)
    requires
        well_formed(maze),
        0 <= r < maze.len(),
        0 <= c < maze[0]@.len(),
    ensures
        maze.len() == 1 ==> roll(maze, dest, r, c, 'd') == (RollEnd::Rest { row: r, col: c, dist: 0 }),
        maze.len() == 1 ==> roll(maze, dest, r, c, 'u') == (RollEnd::Rest { row: r, col: c, dist: 0 }),
        maze[0]@.len() == 1 ==> roll(maze, dest, r, c, 'r') == (RollEnd::Rest { row: r, col: c, dist: 0 }),
        maze[0]@.len() == 1 ==> roll(maze, dest, r, c, 'l') == (RollEnd::Rest { row: r, col: c, dist: 0 }),
{
    assert(maze[r]@.len() == maze[0]@.len());
}

} // verus!
