use vstd::prelude::*;

verus! {

/// Whether `(r, c)` is inside the grid and holds an open cell.
pub open spec fn open_at(maze: Seq<Vec<usize>>, r: int, c: int) -> bool {
    0 <= r < maze.len() && 0 <= c < maze[r]@.len() && maze[r]@[c] == 0
}

/// The four direction labels.
pub open spec fn is_label(ch: char) -> bool {
    ch == 'd' || ch == 'u' || ch == 'r' || ch == 'l'
}

/// Row delta of a direction label.
pub open spec fn delta_row(ch: char) -> int {
    if ch == 'd' {
        1
    } else if ch == 'u' {
        -1
    } else {
        0
    }
}

/// Column delta of a direction label.
pub open spec fn delta_col(ch: char) -> int {
    if ch == 'r' {
        1
    } else if ch == 'l' {
        -1
    } else {
        0
    }
}

/// Label of the `i`-th direction in the order in which they are tried.
pub open spec fn label(i: int) -> char {
    if i == 0 {
        'd'
    } else if i == 1 {
        'u'
    } else if i == 2 {
        'r'
    } else {
        'l'
    }
}

/// Position of a direction label in the order in which directions are tried.
pub open spec fn dir_index(ch: char) -> int {
    if ch == 'd' {
        0
    } else if ch == 'u' {
        1
    } else if ch == 'r' {
        2
    } else {
        3
    }
}

/// How many more cells a roll could at most cover from `(r, c)` towards `ch`.
pub open spec fn room(maze: Seq<Vec<usize>>, r: int, c: int, ch: char) -> int {
    if ch == 'd' {
        maze.len() - r
    } else if ch == 'u' {
        r + 1
    } else if ch == 'r' {
        if 0 <= r < maze.len() {
            maze[r]@.len() - c
        } else {
            0
        }
    } else {
        c + 1
    }
}

/// How one roll segment ends.
pub enum RollEnd {
    /// The ball fell into the hole after `dist` cells.
    Hole { dist: int },
    /// The ball came to rest at `(row, col)` after `dist` cells.
    Rest { row: int, col: int, dist: int },
}

/// Adds `k` cells to the length of a roll.
pub open spec fn extend(e: RollEnd, k: int) -> RollEnd {
    match e {
        RollEnd::Hole { dist } => RollEnd::Hole { dist: dist + k },
        RollEnd::Rest { row, col, dist } => RollEnd::Rest { row, col, dist: dist + k },
    }
}

/// The roll from `(r, c)` towards `ch`: the ball moves while the next cell is
/// open and stops as soon as it enters `dest`.
pub open spec fn roll(maze: Seq<Vec<usize>>, dest: (int, int), r: int, c: int, ch: char) -> RollEnd
    decreases room(maze, r, c, ch),
{
    let nr = r + delta_row(ch);
    let nc = c + delta_col(ch);
    if !is_label(ch) || !open_at(maze, nr, nc) {
        RollEnd::Rest { row: r, col: c, dist: 0 }
    } else if nr == dest.0 && nc == dest.1 {
        RollEnd::Hole { dist: 1 }
    } else {
        extend(roll(maze, dest, nr, nc, ch), 1)
    }
}

/// Where following `path` from `start` leaves the ball, with the number of
/// cells covered: `None` when a label is not a direction or a roll before the
/// end falls into the hole.
pub open spec fn walk(maze: Seq<Vec<usize>>, dest: (int, int), start: (int, int), path: Seq<char>) -> Option<(int, int, int)>
    decreases path.len(),
{
    if path.len() == 0 {
        Some((start.0, start.1, 0))
    } else {
        match walk(maze, dest, start, path.drop_last()) {
            Some((r, c, k)) => match roll(maze, dest, r, c, path.last()) {
                RollEnd::Rest { row, col, dist } => if is_label(path.last()) {
                    Some((row, col, k + dist))
                } else {
                    None
                },
                RollEnd::Hole { dist } => None,
            },
            None => None,
        }
    }
}

/// Whether `path` takes the ball from `start` into the hole at `dest`: every
/// roll but the last comes to rest, and the last one falls in.
pub open spec fn leads_to_hole(maze: Seq<Vec<usize>>, start: (int, int), dest: (int, int), path: Seq<char>) -> bool {
    &&& path.len() > 0
    &&& is_label(path.last())
    &&& match walk(maze, dest, start, path.drop_last()) {
        Some((r, c, k)) => roll(maze, dest, r, c, path.last()) is Hole,
        None => false,
    }
}

/// The number of cells covered by a path that leads into the hole.
pub open spec fn hole_distance(maze: Seq<Vec<usize>>, start: (int, int), dest: (int, int), path: Seq<char>) -> int {
    match walk(maze, dest, start, path.drop_last()) {
        Some((r, c, k)) => match roll(maze, dest, r, c, path.last()) {
            RollEnd::Hole { dist } => k + dist,
            RollEnd::Rest { row, col, dist } => k + dist,
        },
        None => 0,
    }
}

/// Whether some path leads from `start` into the hole.
pub open spec fn reachable(maze: Seq<Vec<usize>>, start: (int, int), dest: (int, int)) -> bool {
    exists|p: Seq<char>| leads_to_hole(maze, start, dest, p)
}

/// A rectangular grid with at least one cell.
pub open spec fn well_formed(maze: Seq<Vec<usize>>) -> bool {
    &&& maze.len() > 0
    &&& maze[0]@.len() > 0
    &&& forall|i: int| 0 <= i < maze.len() ==> #[trigger] maze[i]@.len() == maze[0]@.len()
}

} // verus!
