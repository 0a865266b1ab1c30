use vstd::prelude::*;

use crate::grid::{
    count_grid, lemma_count_grid_bound, lemma_count_grid_lt, lemma_count_grid_mark, lemma_count_grid_none,
    lemma_count_row_mark, lemma_count_row_none,
};
use crate::lex::{lex_le, lex_lt, lemma_lex_total, lemma_lex_trans, precedes};
use crate::search::{advance, answer, initial, is_least, lemma_least_unique, run, SearchState};
use crate::maze::{
    delta_col, delta_row, dir_index, extend, hole_distance, is_label, label, leads_to_hole, open_at, reachable, roll,
    room, walk, well_formed, RollEnd,
};

verus! {

/// Finds the shortest rolling path of a ball into a hole.
#[derive(Debug, PartialEq)]
pub struct Solution {}

/// Exec outcome of one roll segment.
struct Rolled {
    hole: bool,
    row: usize,
    col: usize,
    dist: usize,
}

/// A rest position waiting in the search queue, with how it was reached.
struct Entry {
    row: usize,
    col: usize,
    steps: usize,
    path: Vec<char>,
}

/// The kept paths as sequences, with their lengths as integers.
spec fn found_of(paths: Seq<(Vec<char>, usize)>) -> Seq<(Seq<char>, int)> {
    paths.map_values(|p: (Vec<char>, usize)| (p.0@, p.1 as int))
}

/// The search state that the exec data of the search stands for.
spec fn abstract_state(
    entries: Seq<Entry>,
    head: usize,
    dir: usize,
    visited: Seq<Vec<bool>>,
    paths: Seq<(Vec<char>, usize)>,
    min: usize,
) -> SearchState {
    SearchState {
        entries: entries.map_values(|e: Entry| (e.row as int, e.col as int, e.steps as int, e.path@)),
        head: head as int,
        dir: dir as int,
        visited: visited.map_values(|v: Vec<bool>| v@),
        found: found_of(paths),
        min: min as int,
    }
}

/// Every marked cell in the grid has all its rolls accounted for: a roll that
/// comes to rest lands on a marked cell, and a roll into the hole only occurs
/// when `found` holds.
spec fn closed(maze: Seq<Vec<usize>>, dest: (int, int), visited: Seq<Vec<bool>>, found: bool) -> bool {
    forall|r: int, c: int, ch: char|
        0 <= r < maze.len() && 0 <= c < maze[0]@.len() && visited[r]@[c] && is_label(ch) ==>
        match #[trigger] roll(maze, dest, r, c, ch) {
            RollEnd::Hole { dist } => found,
            RollEnd::Rest { row, col, dist } => 0 <= row < maze.len() && 0 <= col < maze[0]@.len()
                && visited[row]@[col],
        }
}

/// From a marked start in a closed grid, every walk ends on a marked cell.
proof fn lemma_walk_marked(
    maze: Seq<Vec<usize>>,
    start: (int, int),
    dest: (int, int),
    visited: Seq<Vec<bool>>,
    found: bool,
    p: Seq<char>,
)
    requires
        0 <= start.0 < maze.len(),
        0 <= start.1 < maze[0]@.len(),
        visited[start.0]@[start.1],
        closed(maze, dest, visited, found),
    ensures
        match walk(maze, dest, start, p) {
            Some((r, c, k)) => 0 <= r < maze.len() && 0 <= c < maze[0]@.len() && visited[r]@[c],
            None => true,
        },
    decreases p.len(),
{
    if p.len() > 0 {
        lemma_walk_marked(maze, start, dest, visited, found, p.drop_last());
    }
}

/// In a closed grid with a marked start and no roll into the hole, no path
/// leads into the hole.
proof fn lemma_closed_unreachable(
    maze: Seq<Vec<usize>>,
    start: (int, int),
    dest: (int, int),
    visited: Seq<Vec<bool>>,
)
    requires
        0 <= start.0 < maze.len(),
        0 <= start.1 < maze[0]@.len(),
        visited[start.0]@[start.1],
        closed(maze, dest, visited, false),
    ensures
        !reachable(maze, start, dest),
{
    assert forall|p: Seq<char>| !leads_to_hole(maze, start, dest, p) by {
        if p.len() > 0 {
            lemma_walk_marked(maze, start, dest, visited, false, p.drop_last());
        }
    }
}

/// Whether an exec roll outcome is the spec one.
spec fn rolled_is(o: Rolled, e: RollEnd) -> bool {
    match e {
        RollEnd::Hole { dist } => o.hole && o.dist == dist,
        RollEnd::Rest { row, col, dist } => !o.hole && o.row == row && o.col == col && o.dist == dist,
    }
}

/// Relies on `String::from_iter` over `char`s: the string holds the given
/// characters in order.
#[verifier::external_body]
fn string_from_chars(chars: Vec<char>) -> (r: String)
    ensures
        r@ == chars@,
{
    String::from_iter(chars)
}

impl Solution {
    /// The lexicographically smallest rolling path that takes the ball from
    /// `start` into the hole at `dest`, among those of least length in cells
    /// that a breadth-first search over rest positions finds, or
    /// `"impossible"` when no path leads into the hole.
    pub fn shortest_distance(start: &(usize, usize), dest: &(usize, usize), maze: &Vec<Vec<usize>>) -> (r: String)
        requires
            well_formed(maze@),
            start.0 < maze@.len(),
            start.1 < maze@[0]@.len(),
            maze@.len() * maze@[0]@.len() * (maze@.len() + maze@[0]@.len()) < usize::MAX,
        ensures
            r@ == "impossible"@ <==> !reachable(maze@, (start.0 as int, start.1 as int), (dest.0 as int, dest.1 as int)),
            r@ != "impossible"@ ==> leads_to_hole(maze@, (start.0 as int, start.1 as int), (dest.0 as int, dest.1 as int), r@),
            r@ == answer(maze@, (start.0 as int, start.1 as int), (dest.0 as int, dest.1 as int)),
            ({
                let fin = run(maze@, (dest.0 as int, dest.1 as int), initial(maze@, (start.0 as int, start.1 as int)));
                &&& forall|k: int| 0 <= k < fin.found.len() ==> fin.min <= #[trigger] fin.found[k].1
                &&& r@ != "impossible"@ ==> is_least(fin.found, fin.min, r@)
                    && hole_distance(maze@, (start.0 as int, start.1 as int), (dest.0 as int, dest.1 as int), r@) == fin.min
            }),
    {
        let rows = maze.len();
        let cols = maze[0].len();
        let mut visited: Vec<Vec<bool>> = Vec::new();
        let mut i: usize = 0;
        while i < rows
            invariant
                i <= rows,
                visited@.len() == i,
                forall|k: int| 0 <= k < i ==> #[trigger] visited@[k]@.len() == cols,
                forall|k: int, j: int| 0 <= k < i && 0 <= j < visited@[k]@.len() ==> !#[trigger] visited@[k]@[j],
            decreases rows - i,
        {
            let mut row: Vec<bool> = Vec::new();
            let mut j: usize = 0;
            while j < cols
                invariant
                    j <= cols,
                    row@.len() == j,
                    forall|k: int| 0 <= k < j ==> !#[trigger] row@[k],
                decreases cols - j,
            {
                row.push(false);
                j = j + 1;
            }
            visited.push(row);
            i = i + 1;
        }
        proof {
            lemma_count_grid_none(visited@);
            lemma_count_row_none(visited@[start.0 as int]@);
        }
        let ghost before = visited@;
        visited[start.0].set(start.1, true);
        proof {
            lemma_count_row_mark(before[start.0 as int]@, start.1 as int);
            assert(visited@ =~= before.update(start.0 as int, visited@[start.0 as int]));
            lemma_count_grid_mark(before, start.0 as int, visited@[start.0 as int]);
        }
        let (paths, min_distance) = Self::bfs(start, dest, maze, &mut visited);
        proof {
            reveal_strlit("impossible");
            assert forall|k: int| 0 <= k < paths@.len() implies min_distance <= #[trigger] found_of(paths@)[k].1 by {
                assert(leads_to_hole(maze@, (start.0 as int, start.1 as int), (dest.0 as int, dest.1 as int), paths@[k].0@));
            }
        }
        if paths.len() == 0 {
            return "impossible".to_owned();
        }
        match Self::smallest_path(&paths, min_distance) {
            Some(best) => {
                let ghost k = choose|k: int| 0 <= k < paths@.len() && paths@[k].1 == min_distance && paths@[k].0@ == best@;
                let r = string_from_chars(best);
                proof {
                    assert(leads_to_hole(maze@, (start.0 as int, start.1 as int), (dest.0 as int, dest.1 as int), paths@[k].0@));
                    assert(is_label(r@.last()));
                    assert(!is_label("impossible"@.last()));
                    let fin = run(maze@, (dest.0 as int, dest.1 as int), initial(maze@, (start.0 as int, start.1 as int)));
                    let found = found_of(paths@);
                    assert(found[k].1 == min_distance && found[k].0 == best@);
                    assert forall|j: int| 0 <= j < found.len() && #[trigger] found[j].1 == min_distance as int
                        implies lex_le(best@, found[j].0) by {
                        assert(paths@[j].1 == min_distance);
                    }
                    assert(is_least(fin.found, fin.min, best@));
                    let q = choose|q: Seq<char>| is_least(fin.found, fin.min, q);
                    lemma_least_unique(fin.found, fin.min, best@, q);
                }
                r
            },
            None => {
                proof {
                    let k = choose|k: int| 0 <= k < paths@.len() && #[trigger] paths@[k].1 == min_distance;
                    assert(paths@[k].1 != min_distance);
                }
                "impossible".to_owned()
            },
        }
    }

    /// Among the paths whose length in cells is `min`, the lexicographically
    /// smallest one; `None` when no path has that length.
    pub fn smallest_path(paths: &Vec<(Vec<char>, usize)>, min: usize) -> (r: Option<Vec<char>>)
        ensures
            r is None <==> forall|k: int| 0 <= k < paths@.len() ==> #[trigger] paths@[k].1 != min,
            r matches Some(best) ==> exists|k: int| 0 <= k < paths@.len() && #[trigger] paths@[k].1 == min && paths@[k].0@ == best@,
            r matches Some(best) ==> forall|k: int| 0 <= k < paths@.len() && #[trigger] paths@[k].1 == min ==> lex_le(best@, paths@[k].0@),
    {
        let mut best: Option<Vec<char>> = None;
        let mut i: usize = 0;
        while i < paths.len()
            invariant
                i <= paths@.len(),
                best is None <==> forall|k: int| 0 <= k < i ==> #[trigger] paths@[k].1 != min,
                best matches Some(b) ==> exists|k: int| 0 <= k < i && #[trigger] paths@[k].1 == min && paths@[k].0@ == b@,
                best matches Some(b) ==> forall|k: int| 0 <= k < i && #[trigger] paths@[k].1 == min ==> lex_le(b@, paths@[k].0@),
            decreases paths@.len() - i,
        {
            if paths[i].1 == min {
                let take = match &best {
                    None => true,
                    Some(b) => precedes(&paths[i].0, b),
                };
                let ghost prev = best;
                if take {
                    let p = paths[i].0.clone();
                    proof {
                        assert(p@ =~= paths@[i as int].0@);
                        if let Some(b) = prev {
                            assert forall|k: int| 0 <= k < i + 1 && #[trigger] paths@[k].1 == min implies lex_le(p@, paths@[k].0@) by {
                                if k < i && lex_lt(b@, paths@[k].0@) {
                                    lemma_lex_trans(p@, b@, paths@[k].0@);
                                }
                            }
                        }
                    }
                    best = Some(p);
                } else {
                    proof {
                        if let Some(b) = prev {
                            lemma_lex_total(b@, paths@[i as int].0@);
                        }
                    }
                }
            }
            i = i + 1;
        }
        best
    }

    /// Label of the `d`-th direction.
    fn direction_label(d: usize) -> (ch: char)
        requires
            d < 4,
        ensures
            ch == label(d as int),
            is_label(ch),
    {
        if d == 0 {
            'd'
        } else if d == 1 {
            'u'
        } else if d == 2 {
            'r'
        } else {
            'l'
        }
    }

    /// Searches the rest positions breadth first from `node`, which `visited`
    /// already marks, and collects every path found into the hole at `dest`
    /// that is no longer than the shortest one known when it was found.
    /// Returns those paths, each with its length in cells, and the shortest
    /// length (`usize::MAX` when there is none); `visited` ends up marking
    /// every rest position queued. Entries are expanded in the order they were
    /// queued, so each level of the search is done before the next begins.
    #[verifier::loop_isolation(false)]
    fn bfs(
        node: &(usize, usize),
        dest: &(usize, usize),
        maze: &Vec<Vec<usize>>,
        visited: &mut Vec<Vec<bool>>,
    ) -> (res: (Vec<(Vec<char>, usize)>, usize))
        requires
            well_formed(maze@),
            node.0 < maze@.len(),
            node.1 < maze@[0]@.len(),
            maze@.len() * maze@[0]@.len() * (maze@.len() + maze@[0]@.len()) < usize::MAX,
            old(visited)@.len() == maze@.len(),
            forall|i: int| 0 <= i < maze@.len() ==> #[trigger] old(visited)@[i]@.len() == maze@[0]@.len(),
            count_grid(old(visited)@) == 1,
            forall|r: int, c: int| 0 <= r < maze@.len() && 0 <= c < maze@[0]@.len() ==>
                (#[trigger] old(visited)@[r]@[c] <==> r == node.0 && c == node.1),
        ensures
            forall|k: int| 0 <= k < res.0@.len() ==>
                leads_to_hole(maze@, (node.0 as int, node.1 as int), (dest.0 as int, dest.1 as int), #[trigger] res.0@[k].0@)
                && hole_distance(maze@, (node.0 as int, node.1 as int), (dest.0 as int, dest.1 as int), res.0@[k].0@) == res.0@[k].1
                && res.1 <= res.0@[k].1,
            res.0@.len() == 0 <==> !reachable(maze@, (node.0 as int, node.1 as int), (dest.0 as int, dest.1 as int)),
            res.0@.len() > 0 ==> exists|k: int| 0 <= k < res.0@.len() && #[trigger] res.0@[k].1 == res.1,
            found_of(res.0@) == run(maze@, (dest.0 as int, dest.1 as int), initial(maze@, (node.0 as int, node.1 as int))).found,
            res.1 == run(maze@, (dest.0 as int, dest.1 as int), initial(maze@, (node.0 as int, node.1 as int))).min,
            final(visited)@.map_values(|v: Vec<bool>| v@)
                == run(maze@, (dest.0 as int, dest.1 as int), initial(maze@, (node.0 as int, node.1 as int))).visited,
    {
        let ghost mz = maze@;
        let ghost s = (node.0 as int, node.1 as int);
        let ghost g = (dest.0 as int, dest.1 as int);
        let rows = maze.len();
        let cols = maze[0].len();
        let ghost b = rows + cols;
        let mut entries: Vec<Entry> = Vec::new();
        entries.push(Entry { row: node.0, col: node.1, steps: 0, path: Vec::new() });
        let mut min_distance: usize = usize::MAX;
        let mut paths: Vec<(Vec<char>, usize)> = Vec::new();
        let mut head: usize = 0;
        proof {
            assert(entries@[0].path@ =~= Seq::<char>::empty());
            assert forall|r: int, c: int| 0 <= r < rows && 0 <= c < cols && #[trigger] visited@[r]@[c]
                implies exists|i: int| 0 <= i < entries@.len() && entries@[i].row == r && entries@[i].col == c by {
                assert(entries@[0].row == r && entries@[0].col == c);
            }
            let a0 = abstract_state(entries@, head, 0, visited@, paths@, min_distance);
            let i0 = initial(mz, s);
            assert forall|r: int| 0 <= r < rows implies #[trigger] a0.visited[r] =~= i0.visited[r] by {}
            assert(a0.visited =~= i0.visited);
            assert(a0.entries =~= i0.entries);
            assert(a0.found =~= i0.found);
            assert(a0 == i0);
        }
        while head < entries.len()
            invariant
                mz == maze@,
                visited@.len() == rows,
                forall|i: int| 0 <= i < rows ==> #[trigger] visited@[i]@.len() == cols,
                visited@[s.0]@[s.1],
                1 <= entries@.len(),
                head <= entries@.len(),
                entries@.len() == count_grid(visited@),
                forall|i: int| 0 <= i < entries@.len() ==> {
                    let e = #[trigger] entries@[i];
                    &&& e.row < rows
                    &&& e.col < cols
                    &&& visited@[e.row as int]@[e.col as int]
                    &&& walk(mz, g, s, e.path@) == Some((e.row as int, e.col as int, e.steps as int))
                    &&& e.steps <= i * b
                },
                forall|r: int, c: int| 0 <= r < rows && 0 <= c < cols && #[trigger] visited@[r]@[c]
                    ==> exists|i: int| 0 <= i < entries@.len() && entries@[i].row == r && entries@[i].col == c,
                forall|i: int, ch: char| 0 <= i < head && is_label(ch) ==>
                    match #[trigger] roll(mz, g, entries@[i].row as int, entries@[i].col as int, ch) {
                        RollEnd::Hole { dist } => paths@.len() > 0,
                        RollEnd::Rest { row, col, dist } => 0 <= row < rows && 0 <= col < cols
                            && visited@[row]@[col],
                    },
                forall|k: int| 0 <= k < paths@.len() ==>
                    leads_to_hole(mz, s, g, #[trigger] paths@[k].0@)
                    && hole_distance(mz, s, g, paths@[k].0@) == paths@[k].1
                    && min_distance <= paths@[k].1,
                paths@.len() == 0 <==> min_distance == usize::MAX,
                paths@.len() > 0 ==> exists|k: int| 0 <= k < paths@.len() && #[trigger] paths@[k].1 == min_distance,
                run(mz, g, abstract_state(entries@, head, 0, visited@, paths@, min_distance)) == run(mz, g, initial(mz, s)),
            decreases rows * cols - head,
        {
            proof {
                lemma_count_grid_bound(visited@, cols as int);
            }
            let er = entries[head].row;
            let ec = entries[head].col;
            let steps = entries[head].steps;
            let mut d: usize = 0;
            while d < 4
                invariant
                    mz == maze@,
                    head < entries@.len(),
                    er == entries@[head as int].row,
                    ec == entries@[head as int].col,
                    steps == entries@[head as int].steps,
                    visited@.len() == rows,
                    forall|i: int| 0 <= i < rows ==> #[trigger] visited@[i]@.len() == cols,
                    visited@[s.0]@[s.1],
                    entries@.len() == count_grid(visited@),
                    forall|i: int| 0 <= i < entries@.len() ==> {
                        let e = #[trigger] entries@[i];
                        &&& e.row < rows
                        &&& e.col < cols
                        &&& visited@[e.row as int]@[e.col as int]
                        &&& walk(mz, g, s, e.path@) == Some((e.row as int, e.col as int, e.steps as int))
                        &&& e.steps <= i * b
                    },
                    forall|r: int, c: int| 0 <= r < rows && 0 <= c < cols && #[trigger] visited@[r]@[c]
                        ==> exists|i: int| 0 <= i < entries@.len() && entries@[i].row == r && entries@[i].col == c,
                    forall|i: int, ch: char| (0 <= i < head || (i == head && dir_index(ch) < d)) && is_label(ch) ==>
                        match #[trigger] roll(mz, g, entries@[i].row as int, entries@[i].col as int, ch) {
                            RollEnd::Hole { dist } => paths@.len() > 0,
                            RollEnd::Rest { row, col, dist } => 0 <= row < rows && 0 <= col < cols
                                && visited@[row]@[col],
                        },
                    forall|k: int| 0 <= k < paths@.len() ==>
                        leads_to_hole(mz, s, g, #[trigger] paths@[k].0@)
                        && hole_distance(mz, s, g, paths@[k].0@) == paths@[k].1
                        && min_distance <= paths@[k].1,
                    paths@.len() == 0 <==> min_distance == usize::MAX,
                    paths@.len() > 0 ==> exists|k: int| 0 <= k < paths@.len() && #[trigger] paths@[k].1 == min_distance,
                    d <= 4,
                    run(mz, g, abstract_state(entries@, head, d, visited@, paths@, min_distance)) == run(mz, g, initial(mz, s)),
                decreases 4 - d,
            {
                let ch = Self::direction_label(d);
                let o = Self::roll_from(maze, *dest, er, ec, d);
                let ghost e = roll(mz, g, er as int, ec as int, ch);
                let ghost before = abstract_state(entries@, head, d, visited@, paths@, min_distance);
                proof {
                    lemma_count_grid_bound(visited@, cols as int);
                    assert(head + 1 <= rows * cols);
                    assert((head + 1) * b <= rows * cols * b) by (nonlinear_arith)
                        requires head + 1 <= rows * cols, b >= 0;
                    assert(head * b + b == (head + 1) * b) by (nonlinear_arith);
                }
                if o.hole {
                    let total = steps + o.dist;
                    if total <= min_distance {
                        let mut np = entries[head].path.clone();
                        np.push(ch);
                        proof {
                            assert(np@.drop_last() =~= entries@[head as int].path@);
                        }
                        min_distance = total;
                        paths.push((np, total));
                        assert(paths@[paths@.len() - 1].1 == min_distance);
                    }
                } else if !visited[o.row][o.col] {
                    proof {
                        lemma_count_grid_lt(visited@, cols as int, o.row as int, o.col as int);
                    }
                    let ghost old_row = visited@[o.row as int]@;
                    let ghost old_visited = visited@;
                    visited[o.row].set(o.col, true);
                    let mut np = entries[head].path.clone();
                    np.push(ch);
                    proof {
                        lemma_count_row_mark(old_row, o.col as int);
                        assert(visited@ =~= old_visited.update(o.row as int, visited@[o.row as int]));
                        lemma_count_grid_mark(old_visited, o.row as int, visited@[o.row as int]);
                        assert(np@.drop_last() =~= entries@[head as int].path@);
                    }
                    let ghost old_entries = entries@;
                    proof {
                        assert(walk(mz, g, s, np@) == Some((o.row as int, o.col as int, steps + o.dist)));
                        assert((head + 1) * b <= old_entries.len() * b) by (nonlinear_arith)
                            requires head + 1 <= old_entries.len(), b >= 0;
                    }
                    entries.push(Entry { row: o.row, col: o.col, steps: steps + o.dist, path: np });
                    proof {
                        assert(entries@[old_entries.len() as int].row == o.row);
                        assert forall|i: int| 0 <= i < old_entries.len() implies #[trigger] entries@[i] == old_entries[i] by {}
                        assert forall|r: int, c: int| 0 <= r < rows && 0 <= c < cols && #[trigger] visited@[r]@[c]
                            implies exists|i: int| 0 <= i < entries@.len() && entries@[i].row == r && entries@[i].col == c by {
                            if r == o.row && c == o.col {
                                assert(entries@[old_entries.len() as int].col == c);
                            } else {
                                assert(old_visited[r]@[c]);
                                let i = choose|i: int| 0 <= i < old_entries.len() && old_entries[i].row == r && old_entries[i].col == c;
                                assert(entries@[i] == old_entries[i]);
                            }
                        }
                    }
                }
                d = d + 1;
                proof {
                    lemma_count_grid_bound(visited@, cols as int);
                    let after = abstract_state(entries@, head, d, visited@, paths@, min_distance);
                    let next = advance(mz, g, before);
                    assert(after.entries =~= next.entries);
                    assert(after.visited =~= next.visited);
                    assert(after.found =~= next.found);
                    assert(after == next);
                }
            }
            proof {
                let before = abstract_state(entries@, head, 4, visited@, paths@, min_distance);
                let after = abstract_state(entries@, (head + 1) as usize, 0, visited@, paths@, min_distance);
                assert(after == advance(mz, g, before));
                lemma_count_grid_bound(visited@, cols as int);
                assert(run(mz, g, before) == run(mz, g, after));
            }
            head = head + 1;
        }
        proof {
            let fin = abstract_state(entries@, head, 0, visited@, paths@, min_distance);
            assert(run(mz, g, fin) == fin);
            if paths@.len() == 0 {
                assert forall|r: int, c: int, ch: char|
                    0 <= r < mz.len() && 0 <= c < mz[0]@.len() && visited@[r]@[c] && is_label(ch) implies
                    match #[trigger] roll(mz, g, r, c, ch) {
                        RollEnd::Hole { dist } => false,
                        RollEnd::Rest { row, col, dist } => 0 <= row < mz.len() && 0 <= col < mz[0]@.len()
                            && visited@[row]@[col],
                    } by {
                    let i = choose|i: int| 0 <= i < entries@.len() && entries@[i].row == r && entries@[i].col == c;
                    assert(roll(mz, g, entries@[i].row as int, entries@[i].col as int, ch) == roll(mz, g, r, c, ch));
                }
                lemma_closed_unreachable(mz, s, g, visited@);
            } else {
                assert(leads_to_hole(mz, s, g, paths@[0].0@));
            }
        }
        (paths, min_distance)
    }

    /// Rolls from `(r, c)` in the `d`-th direction until a wall, the edge or the hole.
    fn roll_from(maze: &Vec<Vec<usize>>, dest: (usize, usize), r: usize, c: usize, d: usize) -> (o: Rolled)
        requires
            well_formed(maze@),
            r < maze@.len(),
            c < maze@[0]@.len(),
            d < 4,
        ensures
            rolled_is(o, roll(maze@, (dest.0 as int, dest.1 as int), r as int, c as int, label(d as int))),
            o.dist <= maze@.len() + maze@[0]@.len(),
            !o.hole ==> o.row < maze@.len() && o.col < maze@[0]@.len(),
    {
        let ghost ch = label(d as int);
        let ghost g = (dest.0 as int, dest.1 as int);
        let rows = maze.len();
        let cols = maze[0].len();
        let mut cr: usize = r;
        let mut cc: usize = c;
        let mut dist: usize = 0;
        loop
            invariant
                well_formed(maze@),
                rows == maze@.len(),
                cols == maze@[0]@.len(),
                d < 4,
                ch == label(d as int),
                g == (dest.0 as int, dest.1 as int),
                cr < rows,
                cc < cols,
                d == 0 ==> cc == c && cr == r + dist,
                d == 1 ==> cc == c && cr + dist == r,
                d == 2 ==> cr == r && cc == c + dist,
                d == 3 ==> cr == r && cc + dist == c,
                roll(maze@, g, r as int, c as int, ch) == extend(roll(maze@, g, cr as int, cc as int, ch), dist as int),
            decreases room(maze@, cr as int, cc as int, ch),
        {
            let mut ok = false;
            let mut nr: usize = cr;
            let mut nc: usize = cc;
            if d == 0 {
                if cr + 1 < rows {
                    nr = cr + 1;
                    ok = true;
                }
            } else if d == 1 {
                if cr > 0 {
                    nr = cr - 1;
                    ok = true;
                }
            } else if d == 2 {
                if cc + 1 < cols {
                    nc = cc + 1;
                    ok = true;
                }
            } else {
                if cc > 0 {
                    nc = cc - 1;
                    ok = true;
                }
            }
            assert(maze@[nr as int]@.len() == cols);
            let open = ok && maze[nr][nc] == 0;
            assert(open <==> open_at(maze@, cr + delta_row(ch), cc + delta_col(ch)));
            if !open {
                return Rolled { hole: false, row: cr, col: cc, dist };
            }
            if nr == dest.0 && nc == dest.1 {
                return Rolled { hole: true, row: nr, col: nc, dist: dist + 1 };
            }
            cr = nr;
            cc = nc;
            dist = dist + 1;
        }
    }

    /// The five by five maze used in the examples.
    pub fn test_fixture_1() -> (r: Vec<Vec<usize>>)
        ensures
            r@.len() == 5,
            r@[0]@ == seq![0usize, 0, 0, 0, 0],
            r@[1]@ == seq![1usize, 1, 0, 0, 1],
            r@[2]@ == seq![0usize, 0, 0, 0, 0],
            r@[3]@ == seq![0usize, 1, 0, 0, 1],
            r@[4]@ == seq![0usize, 1, 0, 0, 0],
            well_formed(r@),
    {
        let r = vec![
            vec![0, 0, 0, 0, 0],
            vec![1, 1, 0, 0, 1],
            vec![0, 0, 0, 0, 0],
            vec![0, 1, 0, 0, 1],
            vec![0, 1, 0, 0, 0],
        ];
        assert(r@[0]@ =~= seq![0usize, 0, 0, 0, 0]);
        assert(r@[1]@ =~= seq![1usize, 1, 0, 0, 1]);
        assert(r@[2]@ =~= seq![0usize, 0, 0, 0, 0]);
        assert(r@[3]@ =~= seq![0usize, 1, 0, 0, 1]);
        assert(r@[4]@ =~= seq![0usize, 1, 0, 0, 0]);
        r
    }
}

} // verus!
