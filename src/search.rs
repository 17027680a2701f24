//! Searches for a move sequence that solves the puzzle.

use vstd::prelude::*;
use crate::board::{
    Arrangement, Graph, Move, PuzzleError, arrangement_ok, legal, mapping_ok, start_of, build_graph, load_map, solved, fingerprint, move_possibilities,
    move_data, state_hash, is_solved,
};
use crate::path::{
    admissible, apply_path, valid_path, state_after, trail, lemma_prepend, lemma_admissible_prepend,
    lemma_admissible_push, lemma_admissible_take, lemma_push, lemma_trail_push, lemma_shortcut,
    lemma_path_ok,
};

verus! {

/// A solved arrangement and the moves that reached it.
#[derive(Debug)]
pub struct Solution {
    pub arrangement: Arrangement,
    pub moves: Vec<Move>,
}

/// `v` followed by `x`, leaving `v` as it was.
fn pushed<T: Copy>(v: &Vec<T>, x: T) -> (r: Vec<T>)
    ensures
        r@ == v@.push(x),
{
    let mut r = copied(v);
    r.push(x);
    r
}

/// A copy of `v`.
fn copied<T: Copy>(v: &Vec<T>) -> (r: Vec<T>)
    ensures
        r@ == v@,
{
    let mut r: Vec<T> = Vec::new();
    let mut i: usize = 0;
    while i < v.len()
        invariant
            i <= v@.len(),
            r@ == v@.take(i as int),
        decreases v@.len() - i,
    {
        r.push(v[i]);
        i = i + 1;
        assert(r@ =~= v@.take(i as int));
    }
    assert(v@.take(v@.len() as int) =~= v@);
    r
}

/// Whether `x` is one of the fingerprints in `v`.
fn holds(v: &Vec<u32>, x: u32) -> (r: bool)
    ensures
        r == v@.contains(x),
{
    let mut i: usize = 0;
    while i < v.len()
        invariant
            i <= v@.len(),
            forall|j: int| 0 <= j < i ==> v@[j] != x,
        decreases v@.len() - i,
    {
        if v[i] == x {
            return true;
        }
        i = i + 1;
    }
    false
}

/// `q` begins with one of the first `i` moves of `c`.
pub open spec fn starts_with_one_of(q: Seq<Move>, c: Seq<Move>, i: int) -> bool {
    q.len() > 0 && exists|j: int| 0 <= j < i && q[0] == c[j]
}

/// `sol` extends `moves` by a path from `a` that the search may follow,
/// within the depth bound, and that path ends in the solved arrangement of
/// `sol`.
pub open spec fn dfs_reaches(
    a: Seq<Option<u8>>,
    moves: Seq<Move>,
    visited: Seq<u32>,
    max_depth: int,
    sol: Solution,
) -> bool {
    let h = moves.len() as int;
    let p = sol.moves@.skip(h);
    &&& sol.arrangement.wf()
    &&& solved(sol.arrangement@)
    &&& sol.moves@.len() >= h
    &&& sol.moves@.take(h) == moves
    &&& admissible(a, p, visited)
    &&& apply_path(a, p) == sol.arrangement@
    &&& (sol.moves@.len() <= max_depth || p.len() == 0)
}

/// What the depth-limited search owes on success: `sol` reaches a solved
/// arrangement, and no shorter path from `a` that the search may follow
/// reaches one.
pub open spec fn dfs_found(
    a: Seq<Option<u8>>,
    moves: Seq<Move>,
    visited: Seq<u32>,
    max_depth: int,
    sol: Solution,
) -> bool {
    let p = sol.moves@.skip(moves.len() as int);
    &&& dfs_reaches(a, moves, visited, max_depth, sol)
    &&& forall|q: Seq<Move>| admissible(a, q, visited) && q.len() < p.len() ==> !solved(#[trigger] apply_path(a, q))
}

/// The length that a path must reach before it can beat `best`.
pub open spec fn best_bound(best: Option<Solution>, h: int, max_depth: int) -> int {
    match best {
        Some(sol) => sol.moves@.len() - h,
        None => max_depth - h + 1,
    }
}

/// No path from `a` that the search may follow within the depth bound
/// reaches a solved arrangement.
pub open spec fn dfs_exhausted(a: Seq<Option<u8>>, h: int, visited: Seq<u32>, max_depth: int) -> bool {
    forall|q: Seq<Move>|
        admissible(a, q, visited) && h + q.len() <= max_depth ==> !solved(#[trigger] apply_path(a, q))
}

/// Depth-limited recursive search from `a`, reached by `moves`, with the
/// fingerprints in `visited` already seen on this path. Every branch is
/// explored to the end and the solution with the fewest moves is kept, the
/// first found among equals. The exact inverse of the last move needs no
/// separate pruning: it leads back to an arrangement already in `visited`
/// whenever the caller keeps the fingerprints of the path there.
pub fn solve(graph: &Graph, a: &Arrangement, moves: &Vec<Move>, visited: &Vec<u32>, max_depth: usize) -> (r: Result<Solution, PuzzleError>)
    requires
        graph.wf(),
        a.wf(),
    ensures
        match r {
            Ok(sol) => dfs_found(a@, moves@, visited@, max_depth as int, sol),
            Err(e) => {
                &&& !solved(a@)
                &&& e == PuzzleError::DepthExceeded || e == PuzzleError::NoSolutionFound
                &&& (e == PuzzleError::DepthExceeded <==> moves@.len() >= max_depth)
                &&& dfs_exhausted(a@, moves@.len() as int, visited@, max_depth as int)
            },
        },
    decreases max_depth - moves@.len(),
{
    let ghost s = a@;
    let ghost h = moves@.len() as int;
    proof {
        a.lemma_wf();
    }
    if is_solved(a) {
        let sol = Solution { arrangement: a.duplicate(), moves: copied(moves) };
        proof {
            assert(sol.moves@.skip(h) =~= Seq::<Move>::empty());
            assert(sol.moves@.take(h) =~= moves@);
            assert(apply_path(s, Seq::<Move>::empty()) == s);
        }
        return Ok(sol);
    }
    if moves.len() >= max_depth {
        proof {
            assert forall|q: Seq<Move>| admissible(s, q, visited@) && h + q.len() <= max_depth implies !solved(#[trigger] apply_path(s, q)) by {
                assert(q =~= Seq::<Move>::empty());
            }
        }
        return Err(PuzzleError::DepthExceeded);
    }
    let candidates = move_possibilities(graph, a);
    let mut best: Option<Solution> = None;
    let mut i: usize = 0;
    while i < candidates.len()
        invariant
            graph.wf(),
            a.wf(),
            a@ == s,
            arrangement_ok(s),
            moves@.len() == h,
            h < max_depth,
            !solved(s),
            i <= candidates@.len(),
            forall|j: int| 0 <= j < candidates@.len() ==> legal(s, #[trigger] candidates@[j]),
            forall|m: Move| legal(s, m) ==> candidates@.contains(m),
            match best {
                Some(sol) => dfs_reaches(s, moves@, visited@, max_depth as int, sol) && sol.moves@.len() > h,
                None => true,
            },
            forall|q: Seq<Move>|
                admissible(s, q, visited@) && starts_with_one_of(q, candidates@, i as int)
                    && q.len() < best_bound(best, h, max_depth as int) ==> !solved(#[trigger] apply_path(s, q)),
        decreases candidates@.len() - i,
    {
        let m = candidates[i];
        let ghost c = candidates@;
        let ghost old_bound = best_bound(best, h, max_depth as int);
        let ghost mut bound_m: int = max_depth - h + 1;
        match move_data(graph, a, m) {
            Err(_) => {
                // every candidate is legal, so the move applies
                assert(false);
            },
            Ok(next) => {
                let fp = state_hash(&next);
                if holds(visited, fp) {
                    proof {
                        assert forall|q: Seq<Move>| admissible(s, q, visited@) && q.len() > 0 implies q[0] != m by {
                            assert(q =~= seq![q[0]] + q.skip(1));
                            lemma_admissible_prepend(s, q[0], q.skip(1), visited@);
                        }
                    }
                } else {
                    let new_moves = pushed(moves, m);
                    let new_visited = pushed(visited, fp);
                    let sub = solve(graph, &next, &new_moves, &new_visited, max_depth);
                    proof {
                        // Paths through `m` are `m` followed by a path from `next`.
                        assert forall|q: Seq<Move>| admissible(s, q, visited@) && q.len() > 0 && q[0] == m implies
                            admissible(next@, q.skip(1), new_visited@) && apply_path(s, q) == apply_path(next@, q.skip(1)) by {
                            assert(q =~= seq![m] + q.skip(1));
                            lemma_admissible_prepend(s, m, q.skip(1), visited@);
                            lemma_prepend(s, m, q.skip(1));
                        }
                    }
                    match sub {
                        Ok(sol) => {
                            proof {
                                let p = sol.moves@.skip(h);
                                let p1 = sol.moves@.skip(h + 1);
                                assert(sol.moves@.take(h + 1) == new_moves@);
                                assert(new_moves@[h] == m);
                                assert(sol.moves@[h] == sol.moves@.take(h + 1)[h]);
                                assert(p =~= seq![m] + p1);
                                assert(sol.moves@.take(h) =~= moves@) by {
                                    assert(sol.moves@.take(h) =~= sol.moves@.take(h + 1).take(h));
                                    assert(moves@ =~= new_moves@.take(h));
                                }
                                lemma_admissible_prepend(s, m, p1, visited@);
                                lemma_prepend(s, m, p1);
                                bound_m = sol.moves@.len() - h;
                            }
                            let better = match &best {
                                None => true,
                                Some(b) => sol.moves.len() < b.moves.len(),
                            };
                            if better {
                                best = Some(sol);
                            }
                        },
                        Err(_) => {},
                    }
                }
            },
        }
        proof {
            assert(best_bound(best, h, max_depth as int) <= old_bound);
            assert(best_bound(best, h, max_depth as int) <= bound_m);
            assert forall|q: Seq<Move>|
                admissible(s, q, visited@) && starts_with_one_of(q, c, i + 1)
                    && q.len() < best_bound(best, h, max_depth as int) implies !solved(#[trigger] apply_path(s, q)) by {
                if q[0] != m {
                    let j = choose|j: int| 0 <= j < i + 1 && q[0] == c[j];
                    assert(j != i);
                    assert(starts_with_one_of(q, c, i as int));
                }
            }
        }
        i = i + 1;
    }
    proof {
        assert forall|q: Seq<Move>| admissible(s, q, visited@) && q.len() > 0 implies starts_with_one_of(q, candidates@, candidates@.len() as int) by {
            assert(q =~= seq![q[0]] + q.skip(1));
            lemma_admissible_prepend(s, q[0], q.skip(1), visited@);
            assert(candidates@.contains(q[0]));
        }
        assert forall|q: Seq<Move>| q.len() == 0 implies apply_path(s, q) == s by {}
    }
    match best {
        Some(sol) => Ok(sol),
        None => Err(PuzzleError::NoSolutionFound),
    }
}


/// `sol` solves the puzzle from `start` within `max_depth` moves, never
/// passing twice through an arrangement, every arrangement on its way is
/// well formed, and no shorter legal move sequence solves it.
pub open spec fn shortest_solution(start: Seq<Option<u8>>, max_depth: int, sol: Solution) -> bool {
    &&& sol.arrangement.wf()
    &&& solved(sol.arrangement@)
    &&& valid_path(start, sol.moves@)
    &&& apply_path(start, sol.moves@) == sol.arrangement@
    &&& sol.moves@.len() <= max_depth
    &&& admissible(start, sol.moves@, seq![fingerprint(start)])
    &&& forall|i: int| 0 <= i <= sol.moves@.len() ==> arrangement_ok(#[trigger] state_after(start, sol.moves@, i))
    &&& forall|q: Seq<Move>|
        valid_path(start, q) && q.len() < sol.moves@.len() ==> !solved(#[trigger] apply_path(start, q))
}

/// No legal sequence of at most `max_depth` moves solves the puzzle from
/// `start`.
pub open spec fn unsolvable_within(start: Seq<Option<u8>>, max_depth: int) -> bool {
    forall|q: Seq<Move>| valid_path(start, q) && q.len() <= max_depth ==> !solved(#[trigger] apply_path(start, q))
}

/// What the breadth-first search owes: a shortest solution when there is
/// one within the depth bound, and `NoSolutionFound` when there is none.
pub open spec fn bfs_outcome(start: Seq<Option<u8>>, max_depth: int, r: Result<Solution, PuzzleError>) -> bool {
    match r {
        Ok(sol) => shortest_solution(start, max_depth, sol),
        Err(e) => e == PuzzleError::NoSolutionFound && unsolvable_within(start, max_depth),
    }
}

/// An arrangement met by the breadth-first search, with the moves that led
/// there and the fingerprints of the arrangements those moves passed through.
pub struct SearchNode {
    pub arrangement: Arrangement,
    pub moves: Vec<Move>,
    pub visited: Vec<u32>,
}

/// `n` stands `d` moves away from `start` on a path that the search may
/// follow, and its fields agree with that path.
pub open spec fn node_ok(start: Seq<Option<u8>>, n: SearchNode, d: int) -> bool {
    &&& n.arrangement.wf()
    &&& n.moves@.len() == d
    &&& admissible(start, n.moves@, seq![fingerprint(start)])
    &&& n.arrangement@ == apply_path(start, n.moves@)
    &&& n.visited@ == trail(start, n.moves@)
}

/// Some node of `level` was reached by `p`.
pub open spec fn in_level(level: Seq<SearchNode>, p: Seq<Move>) -> bool {
    exists|k: int| 0 <= k < level.len() && (#[trigger] level[k]).moves@ == p
}

/// `p` continues the path that led to `n`.
pub open spec fn extends(p: Seq<Move>, n: SearchNode) -> bool {
    p.take(n.moves@.len() as int) == n.moves@
}

proof fn lemma_in_level_push(level: Seq<SearchNode>, n: SearchNode)
    ensures
        forall|p: Seq<Move>| in_level(level, p) ==> #[trigger] in_level(level.push(n), p),
        in_level(level.push(n), n.moves@),
{
    assert forall|p: Seq<Move>| in_level(level, p) implies #[trigger] in_level(level.push(n), p) by {
        let k = choose|k: int| 0 <= k < level.len() && (#[trigger] level[k]).moves@ == p;
        assert(level.push(n)[k] == level[k]);
    }
    assert(level.push(n)[level.len() as int] == n);
}

/// Breadth-first search from `start`, in first-in first-out order, one
/// depth after another. A node is expanded only below `max_depth` moves,
/// and a branch is dropped when it comes back to an arrangement that its own
/// path has already passed through. The solution returned has the fewest
/// moves of any move sequence that solves the puzzle from `start`.
pub fn solve_bfs(graph: &Graph, start: &Arrangement, max_depth: usize) -> (r: Result<Solution, PuzzleError>)
    requires
        graph.wf(),
        start.wf(),
    ensures
        bfs_outcome(start@, max_depth as int, r),
{
    let ghost s = start@;
    let ghost v0 = seq![fingerprint(s)];
    proof {
        start.lemma_wf();
    }
    let root = SearchNode { arrangement: start.duplicate(), moves: Vec::new(), visited: vec![state_hash(start)] };
    proof {
        let e = Seq::<Move>::empty();
        assert(root.moves@ =~= e);
        assert(apply_path(s, e) == s);
        assert(state_after(s, e, 0) == s) by {
            assert(e.take(0) =~= e);
        }
        assert(trail(s, e) =~= root.visited@);
        assert(admissible(s, e, v0));
        assert forall|p: Seq<Move>| admissible(s, p, v0) && p.len() == 0 implies in_level(seq![root], p) by {
            assert(p =~= e);
            assert(seq![root][0] == root);
        }
    }
    let mut level: Vec<SearchNode> = vec![root];
    let mut depth: usize = 0;
    loop
        invariant
            graph.wf(),
            start@ == s,
            arrangement_ok(s),
            v0 == seq![fingerprint(s)],
            depth <= max_depth,
            forall|k: int| 0 <= k < level@.len() ==> node_ok(s, #[trigger] level@[k], depth as int),
            forall|p: Seq<Move>| admissible(s, p, v0) && p.len() == depth ==> #[trigger] in_level(level@, p),
            forall|p: Seq<Move>| admissible(s, p, v0) && p.len() < depth ==> !solved(#[trigger] apply_path(s, p)),
        decreases max_depth - depth,
    {
        let mut next: Vec<SearchNode> = Vec::new();
        let mut i: usize = 0;
        while i < level.len()
            invariant
                graph.wf(),
                start@ == s,
                arrangement_ok(s),
                v0 == seq![fingerprint(s)],
                depth <= max_depth,
                i <= level@.len(),
                forall|k: int| 0 <= k < level@.len() ==> node_ok(s, #[trigger] level@[k], depth as int),
                forall|p: Seq<Move>| admissible(s, p, v0) && p.len() < depth ==> !solved(#[trigger] apply_path(s, p)),
                forall|p: Seq<Move>| admissible(s, p, v0) && p.len() == depth ==> #[trigger] in_level(level@, p),
                forall|k: int| 0 <= k < i ==> !solved((#[trigger] level@[k]).arrangement@),
                forall|k: int| 0 <= k < next@.len() ==> node_ok(s, #[trigger] next@[k], depth + 1),
                depth < max_depth ==> forall|k: int, p: Seq<Move>|
                    0 <= k < i && admissible(s, p, v0) && p.len() == depth + 1 && #[trigger] extends(p, level@[k])
                        ==> #[trigger] in_level(next@, p),
            decreases level@.len() - i,
        {
            let node = &level[i];
            assert(node_ok(s, level@[i as int], depth as int));
            if is_solved(&node.arrangement) {
                let sol = Solution { arrangement: node.arrangement.duplicate(), moves: copied(&node.moves) };
                proof {
                    lemma_path_ok(s, sol.moves@);
                    assert forall|q: Seq<Move>| valid_path(s, q) && q.len() < sol.moves@.len() implies !solved(#[trigger] apply_path(s, q)) by {
                        let _shorter = lemma_shortcut(s, q);
                    }
                }
                return Ok(sol);
            }
            if depth < max_depth {
                let candidates = move_possibilities(graph, &node.arrangement);
                let mut j: usize = 0;
                while j < candidates.len()
                    invariant
                        graph.wf(),
                        start@ == s,
                        arrangement_ok(s),
                        v0 == seq![fingerprint(s)],
                        depth < max_depth,
                        i < level@.len(),
                        node == &level@[i as int],
                        node_ok(s, *node, depth as int),
                        j <= candidates@.len(),
                        forall|t: int| 0 <= t < candidates@.len() ==> legal(node.arrangement@, #[trigger] candidates@[t]),
                        forall|m: Move| legal(node.arrangement@, m) ==> candidates@.contains(m),
                        forall|k: int| 0 <= k < next@.len() ==> node_ok(s, #[trigger] next@[k], depth + 1),
                        forall|k: int, p: Seq<Move>|
                            0 <= k < i && admissible(s, p, v0) && p.len() == depth + 1 && #[trigger] extends(p, level@[k])
                                ==> #[trigger] in_level(next@, p),
                        forall|t: int| 0 <= t < j ==> #[trigger] in_level(next@, node.moves@.push(candidates@[t]))
                            || !admissible(s, node.moves@.push(candidates@[t]), v0),
                    decreases candidates@.len() - j,
                {
                    let m = candidates[j];
                    match move_data(graph, &node.arrangement, m) {
                        Err(_) => {
                            // every candidate is legal, so the move applies
                            assert(false);
                        },
                        Ok(after) => {
                            let fp = state_hash(&after);
                            proof {
                                lemma_admissible_push(s, node.moves@, m);
                            }
                            if !holds(&node.visited, fp) {
                                let child = SearchNode {
                                    arrangement: after,
                                    moves: pushed(&node.moves, m),
                                    visited: pushed(&node.visited, fp),
                                };
                                proof {
                                    lemma_push(s, node.moves@, m);
                                    lemma_trail_push(s, node.moves@, m);
                                    lemma_in_level_push(next@, child);
                                }
                                next.push(child);
                            }
                        },
                    }
                    j = j + 1;
                }
                proof {
                    assert forall|k: int, p: Seq<Move>|
                        0 <= k < i + 1 && admissible(s, p, v0) && p.len() == depth + 1 && #[trigger] extends(p, level@[k])
                            implies #[trigger] in_level(next@, p) by {
                        if k == i {
                            let d = depth as int;
                            assert(p =~= node.moves@.push(p[d]));
                            lemma_admissible_take(s, p, v0, d);
                            lemma_admissible_push(s, node.moves@, p[d]);
                            let t = choose|t: int| 0 <= t < candidates@.len() && candidates@[t] == p[d];
                        }
                    }
                }
            }
            i = i + 1;
        }
        proof {
            assert forall|p: Seq<Move>| admissible(s, p, v0) && p.len() == depth implies !solved(#[trigger] apply_path(s, p)) by {
                assert(in_level(level@, p));
                let k = choose|k: int| 0 <= k < level@.len() && (#[trigger] level@[k]).moves@ == p;
                assert(node_ok(s, level@[k], depth as int));
            }
        }
        if depth == max_depth {
            proof {
                assert forall|q: Seq<Move>| valid_path(s, q) && q.len() <= max_depth implies !solved(#[trigger] apply_path(s, q)) by {
                    let _shorter = lemma_shortcut(s, q);
                }
            }
            return Err(PuzzleError::NoSolutionFound);
        }
        proof {
            assert forall|p: Seq<Move>| admissible(s, p, v0) && p.len() == depth + 1 implies #[trigger] in_level(next@, p) by {
                let d = depth as int;
                lemma_admissible_take(s, p, v0, d);
                assert(in_level(level@, p.take(d)));
                let k = choose|k: int| 0 <= k < level@.len() && (#[trigger] level@[k]).moves@ == p.take(d);
                assert(extends(p, level@[k]));
            }
        }
        level = next;
        depth = depth + 1;
    }
}


/// The depth-limited search, started with no moves and with only the
/// start's fingerprint visited, finds a solution no longer than any legal
/// move sequence that solves the puzzle.
pub proof fn lemma_depth_first_is_shortest(start: Seq<Option<u8>>, max_depth: int, sol: Solution, q: Seq<Move>)
    requires
        arrangement_ok(start),
        dfs_found(start, Seq::<Move>::empty(), seq![fingerprint(start)], max_depth, sol),
        valid_path(start, q),
        solved(apply_path(start, q)),
    ensures
        sol.moves@.len() <= q.len(),
{
    assert(sol.moves@.skip(0) =~= sol.moves@);
    let _shorter = lemma_shortcut(start, q);
}

/// The depth bound used when the caller names none.
pub const DEFAULT_MAX_DEPTH: usize = 64;

/// Solves the puzzle from a starting mapping of outer location labels to
/// token labels, by breadth-first search within `max_depth` moves. A
/// malformed mapping is refused before any search.
pub fn solve_puzzle(mapping: &Vec<(char, char)>, max_depth: usize) -> (r: Result<Solution, PuzzleError>)
    ensures
        r == Err::<Solution, PuzzleError>(PuzzleError::MalformedInput) <==> !mapping_ok(mapping@),
        mapping_ok(mapping@) ==> bfs_outcome(start_of(mapping@), max_depth as int, r),
{
    let graph = build_graph();
    match load_map(mapping) {
        Err(e) => Err(e),
        Ok(start) => solve_bfs(&graph, &start, max_depth),
    }
}

/// A start that is already solved is answered with no moves at all.
pub proof fn lemma_solved_start_needs_no_moves(start: Seq<Option<u8>>, max_depth: int, sol: Solution)
    requires
        shortest_solution(start, max_depth, sol),
        solved(start),
    ensures
        sol.moves@.len() == 0,
{
    let e = Seq::<Move>::empty();
    assert(apply_path(start, e) == start);
    assert(valid_path(start, e));
}

/// With a depth bound of zero, an unsolved start has no solution.
pub proof fn lemma_zero_depth_fails(start: Seq<Option<u8>>, r: Result<Solution, PuzzleError>)
    requires
        bfs_outcome(start, 0, r),
        !solved(start),
    ensures
        r == Err::<Solution, PuzzleError>(PuzzleError::NoSolutionFound),
{
    if let Ok(sol) = r {
        assert(sol.moves@ =~= Seq::<Move>::empty());
        assert(apply_path(start, sol.moves@) == start);
    }
}

} // verus!
