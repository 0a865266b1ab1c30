use vstd::prelude::*;

use crate::lex::{lemma_lex_asym, lex_le};
use crate::maze::{label, roll, RollEnd};

verus! {

/// The state of the breadth-first search over rest positions.
pub struct SearchState {
    /// Every rest position queued so far, as (row, col, cells from the start,
    /// path), in the order queued; those before `head` have been expanded.
    pub entries: Seq<(int, int, int, Seq<char>)>,
    /// The queue entry being expanded.
    pub head: int,
    /// The next direction to try from it.
    pub dir: int,
    /// The rest positions already queued.
    pub visited: Seq<Seq<bool>>,
    /// The paths into the hole kept so far, with their length in cells.
    pub found: Seq<(Seq<char>, int)>,
    /// The least length in cells of a kept path; `usize::MAX` while none is kept.
    pub min: int,
}

/// Number of cells of the maze.
pub open spec fn cell_count(maze: Seq<Vec<usize>>) -> int {
    (maze.len() * maze[0]@.len()) as int
}

/// The search before any roll: only the start is queued and marked.
pub open spec fn initial(maze: Seq<Vec<usize>>, start: (int, int)) -> SearchState {
    SearchState {
        entries: seq![(start.0, start.1, 0int, Seq::<char>::empty())],
        head: 0,
        dir: 0,
        visited: Seq::new(maze.len(), |i: int| Seq::new(maze[0]@.len(), |j: int| i == start.0 && j == start.1)),
        found: Seq::empty(),
        min: usize::MAX as int,
    }
}

/// One step of the search: roll from the entry at `head` in direction `dir`.
/// A roll into the hole is kept when it is no longer than the best so far; a
/// roll that comes to rest on an unmarked cell marks and queues it. Once all
/// four directions are tried, move on to the next entry.
pub open spec fn advance(maze: Seq<Vec<usize>>, dest: (int, int), s: SearchState) -> SearchState {
    if s.dir >= 4 {
        SearchState { head: s.head + 1, dir: 0, ..s }
    } else {
        let e = s.entries[s.head];
        let ch = label(s.dir);
        match roll(maze, dest, e.0, e.1, ch) {
            RollEnd::Hole { dist } => if e.2 + dist <= s.min {
                SearchState {
                    dir: s.dir + 1,
                    found: s.found.push((e.3.push(ch), e.2 + dist)),
                    min: e.2 + dist,
                    ..s
                }
            } else {
                SearchState { dir: s.dir + 1, ..s }
            },
            RollEnd::Rest { row, col, dist } => if !s.visited[row][col] && s.entries.len() < cell_count(maze) {
                SearchState {
                    dir: s.dir + 1,
                    entries: s.entries.push((row, col, e.2 + dist, e.3.push(ch))),
                    visited: s.visited.update(row, s.visited[row].update(col, true)),
                    ..s
                }
            } else {
                SearchState { dir: s.dir + 1, ..s }
            },
        }
    }
}

/// The search run until the queue is exhausted.
pub open spec fn run(maze: Seq<Vec<usize>>, dest: (int, int), s: SearchState) -> SearchState
    decreases cell_count(maze) - s.entries.len(), s.entries.len() - s.head, 4 - s.dir,
{
    if 0 <= s.head < s.entries.len() && s.entries.len() <= cell_count(maze) {
        run(maze, dest, advance(maze, dest, s))
    } else {
        s
    }
}

/// Whether `p` is the lexicographically least of the kept paths of length `min`.
pub open spec fn is_least(found: Seq<(Seq<char>, int)>, min: int, p: Seq<char>) -> bool {
    &&& exists|k: int| 0 <= k < found.len() && #[trigger] found[k].1 == min && found[k].0 == p
    &&& forall|k: int| 0 <= k < found.len() && #[trigger] found[k].1 == min ==> lex_le(p, found[k].0)
}

/// At most one path is the least.
pub proof fn lemma_least_unique(found: Seq<(Seq<char>, int)>, min: int, p: Seq<char>, q: Seq<char>)
    requires
        is_least(found, min, p),
        is_least(found, min, q),
    ensures
        p == q,
{
    let i = choose|k: int| 0 <= k < found.len() && #[trigger] found[k].1 == min && found[k].0 == p;
    let j = choose|k: int| 0 <= k < found.len() && #[trigger] found[k].1 == min && found[k].0 == q;
    assert(lex_le(q, found[i].0));
    assert(lex_le(p, found[j].0));
    lemma_lex_asym(p, q);
}

/// The answer for a query: the least kept path of least length once the
/// search is done, or `"impossible"` when no path was kept.
pub open spec fn answer(maze: Seq<Vec<usize>>, start: (int, int), dest: (int, int)) -> Seq<char> {
    let fin = run(maze, dest, initial(maze, start));
    if fin.found.len() == 0 {
        "impossible"@
    } else {
        choose|p: Seq<char>| is_least(fin.found, fin.min, p)
    }
}

} // verus!
