use vstd::prelude::*;

use crate::board::{Board, SPACE, WALL};
use crate::moves::{perform_moves, successors};

verus! {

/// `s` matches target `t`: every cell of `t` is a wildcard (empty) or equals
/// the cell of `s` at that position.
pub open spec fn goal(s: Seq<u8>, t: Seq<u8>) -> bool {
    forall|k: int| 0 <= k < t.len() ==> t[k] == SPACE || #[trigger] s[k] == t[k]
}

/// Piece symbol `v` (not an empty cell, not a wall) sits on a cell where `s`
/// and a non-wildcard cell of `t` differ.
pub open spec fn out_of_place(s: Seq<u8>, t: Seq<u8>, v: u8) -> bool {
    &&& v != SPACE
    &&& v != WALL
    &&& exists|k: int| 0 <= k < t.len() && t[k] != SPACE && s[k] != t[k] && #[trigger] s[k] == v
}

/// How many of the bytes `0..n` are misplaced piece symbols.
pub open spec fn count_out(s: Seq<u8>, t: Seq<u8>, n: int) -> nat
    decreases n,
{
    if n <= 0 {
        0
    } else {
        count_out(s, t, n - 1) + if out_of_place(s, t, (n - 1) as u8) { 1nat } else { 0nat }
    }
}

/// The number of distinct piece symbols that are out of place.
pub open spec fn heuristic(s: Seq<u8>, t: Seq<u8>) -> nat {
    count_out(s, t, 256)
}

proof fn lemma_count_out_le(s: Seq<u8>, t: Seq<u8>, n: int)
    requires
        0 <= n,
    ensures
        count_out(s, t, n) <= n,
    decreases n,
{
    if n > 0 {
        lemma_count_out_le(s, t, n - 1);
    }
}

/// A target whose cells are all wildcards is met by every board of its size;
/// a target without a wildcard is met by itself alone.
pub proof fn lemma_goal_wildcards(s: Seq<u8>, t: Seq<u8>)
    requires
        s.len() == t.len(),
    ensures
        (forall|k: int| 0 <= k < t.len() ==> t[k] == SPACE) ==> goal(s, t),
        (forall|k: int| 0 <= k < t.len() ==> t[k] != SPACE) ==> (goal(s, t) <==> s == t),
{
    if forall|k: int| 0 <= k < t.len() ==> t[k] != SPACE {
        if goal(s, t) {
            assert forall|k: int| 0 <= k < t.len() implies s[k] == t[k] by {
                assert(t[k] != SPACE);
            }
            assert(s =~= t);
        }
    }
}

proof fn lemma_count_out_zero(s: Seq<u8>, t: Seq<u8>, n: int)
    requires
        0 <= n <= 256,
    ensures
        count_out(s, t, n) == 0 <==> forall|v: int| 0 <= v < n ==> !#[trigger] out_of_place(s, t, v as u8),
    decreases n,
{
    if n > 0 {
        lemma_count_out_zero(s, t, n - 1);
        if count_out(s, t, n) == 0 {
            assert forall|v: int| 0 <= v < n implies !#[trigger] out_of_place(s, t, v as u8) by {
                if v < n - 1 {
                    assert(count_out(s, t, n - 1) == 0);
                }
            }
        }
    }
}

/// The estimate is zero on every board that meets the target; more exactly,
/// it is zero just when every cell that differs from a non-wildcard target
/// cell is empty or a wall.
pub proof fn lemma_heuristic_zero(s: Seq<u8>, t: Seq<u8>)
    requires
        s.len() == t.len(),
    ensures
        heuristic(s, t) == 0 <==> forall|k: int|
            0 <= k < t.len() ==> t[k] == SPACE || #[trigger] s[k] == t[k] || s[k] == SPACE || s[k]
                == WALL,
        goal(s, t) ==> heuristic(s, t) == 0,
{
    lemma_count_out_zero(s, t, 256);
    if heuristic(s, t) == 0 {
        assert forall|k: int| 0 <= k < t.len() implies t[k] == SPACE || #[trigger] s[k] == t[k] || s[k]
            == SPACE || s[k] == WALL by {
            if t[k] != SPACE && s[k] != t[k] && s[k] != SPACE && s[k] != WALL {
                assert(out_of_place(s, t, (s[k] as int) as u8));
            }
        }
    }
    if forall|k: int|
        0 <= k < t.len() ==> t[k] == SPACE || #[trigger] s[k] == t[k] || s[k] == SPACE || s[k]
            == WALL {
        assert forall|v: int| 0 <= v < 256 implies !#[trigger] out_of_place(s, t, v as u8) by {
            if out_of_place(s, t, v as u8) {
                let k = choose|k: int|
                    0 <= k < t.len() && t[k] != SPACE && s[k] != t[k] && #[trigger] s[k] == v as u8;
                assert(t[k] == SPACE || s[k] == t[k] || s[k] == SPACE || s[k] == WALL);
            }
        }
    }
}

/// Whether `source` matches `target`, empty cells of the target matching
/// anything.
pub fn matches_target(source: &Board, target: &Board) -> (r: bool)
    requires
        source.board@.len() == target.board@.len(),
    ensures
        r == goal(source.board@, target.board@),
{
    let n = target.board.len();
    let mut k: usize = 0;
    while k < n
        invariant
            k <= n,
            n == target.board@.len(),
            source.board@.len() == n,
            forall|x: int|
                0 <= x < k ==> target.board@[x] == SPACE || #[trigger] source.board@[x] == target.board@[x],
        decreases n - k,
    {
        if target.board[k] != SPACE && source.board[k] != target.board[k] {
            return false;
        }
        k = k + 1;
    }
    true
}

/// An estimate of the turns left: one for each distinct piece symbol that
/// sits on a cell where `source` differs from a non-wildcard cell of `target`
/// (empty cells and walls are not counted).
pub fn cost(source: &Board, target: &Board) -> (r: i32)
    requires
        source.board@.len() == target.board@.len(),
    ensures
        r == heuristic(source.board@, target.board@),
{
    let ghost s = source.board@;
    let ghost t = target.board@;
    let n = target.board.len();
    let mut marks: Vec<bool> = Vec::new();
    let mut v: usize = 0;
    while v < 256
        invariant
            v <= 256,
            marks@.len() == v,
            forall|x: int| 0 <= x < v ==> !marks@[x],
        decreases 256 - v,
    {
        marks.push(false);
        v = v + 1;
    }
    let mut k: usize = 0;
    while k < n
        invariant
            k <= n,
            n == t.len(),
            s.len() == n,
            s == source.board@,
            t == target.board@,
            marks@.len() == 256,
            forall|x: u8|
                #[trigger] marks@[x as int] == (x != SPACE && x != WALL && exists|y: int|
                    0 <= y < k && t[y] != SPACE && s[y] != t[y] && #[trigger] s[y] == x),
        decreases n - k,
    {
        let b = source.board[k];
        if target.board[k] != SPACE && b != target.board[k] && b != SPACE && b != WALL {
            marks.set(b as usize, true);
        }
        proof {
            assert forall|x: u8|
                #[trigger] marks@[x as int] == (x != SPACE && x != WALL && exists|y: int|
                    0 <= y < k + 1 && t[y] != SPACE && s[y] != t[y] && #[trigger] s[y] == x) by {
                if exists|y: int| 0 <= y < k + 1 && t[y] != SPACE && s[y] != t[y] && #[trigger] s[y] == x {
                    let y = choose|y: int| 0 <= y < k + 1 && t[y] != SPACE && s[y] != t[y] && #[trigger] s[y] == x;
                    if y < k {
                        assert(0 <= y < k && t[y] != SPACE && s[y] != t[y] && s[y] == x);
                    }
                }
            }
        }
        k = k + 1;
    }
    let mut total: i32 = 0;
    let mut v: usize = 0;
    while v < 256
        invariant
            v <= 256,
            n == t.len(),
            marks@.len() == 256,
            forall|x: u8| #[trigger] marks@[x as int] == out_of_place(s, t, x),
            total == count_out(s, t, v as int),
        decreases 256 - v,
    {
        proof {
            lemma_count_out_le(s, t, v as int);
            assert(marks@[v as int] == out_of_place(s, t, v as u8));
        }
        if marks[v] {
            total = total + 1;
        }
        v = v + 1;
    }
    total
}

/// A run of the search graph from `source`: each board is followed by one of
/// its successors, all of the source's shape.
pub open spec fn is_run(p: Seq<Board>, source: Board) -> bool {
    &&& p.len() >= 1
    &&& p[0].board@ == source.board@
    &&& forall|i: int| 0 <= i < p.len() ==> #[trigger] p[i].len_i == source.len_i && p[i].len_j == source.len_j
    &&& forall|i: int|
        0 <= i < p.len() - 1 ==> successors(#[trigger] p[i].board@, source.len_j as int).contains(
            p[i + 1].board@,
        )
}

/// The successors of `b`, each at a cost of one turn; `visited` counts the
/// expansions and `generated` the successors handed out (both saturating).
pub fn expand(b: &Board, visited: &mut usize, generated: &mut usize) -> (r: Vec<(Board, i32)>)
    requires
        b.wf(),
    ensures
        r@.len() == successors(b.board@, b.len_j as int).len(),
        forall|i: int|
            0 <= i < r@.len() ==> {
                &&& (#[trigger] r@[i]).0.board@ == successors(b.board@, b.len_j as int)[i]
                &&& r@[i].0.len_i == b.len_i
                &&& r@[i].0.len_j == b.len_j
                &&& r@[i].0.wf()
                &&& r@[i].1 == 1
            },
        *final(visited) as int == if *old(visited) < usize::MAX { *old(visited) + 1 } else { *old(visited) as int },
        *final(generated) as int == if *old(generated) + r@.len() <= usize::MAX {
            *old(generated) + r@.len()
        } else {
            usize::MAX as int
        },
{
    let mut buffer: Vec<Board> = Vec::new();
    perform_moves(b, &mut buffer);
    if *visited < usize::MAX {
        *visited = *visited + 1;
    }
    if *generated <= usize::MAX - buffer.len() {
        *generated = *generated + buffer.len();
    } else {
        *generated = usize::MAX;
    }
    let ghost succ = successors(b.board@, b.len_j as int);
    assert forall|x: int| 0 <= x < succ.len() implies {
        let c = #[trigger] buffer@[x];
        c.board@ == succ[x] && c.len_i == b.len_i && c.len_j == b.len_j
    } by {
        assert(buffer@[x] == buffer@[0 + x]);
    }
    let mut r: Vec<(Board, i32)> = Vec::new();
    let mut i: usize = 0;
    while i < buffer.len()
        invariant
            i <= buffer@.len(),
            b.wf(),
            succ == successors(b.board@, b.len_j as int),
            buffer@.len() == succ.len(),
            forall|x: int|
                0 <= x < succ.len() ==> {
                    let c = #[trigger] buffer@[x];
                    c.board@ == succ[x] && c.len_i == b.len_i && c.len_j == b.len_j
                },
            r@.len() == i,
            forall|x: int|
                0 <= x < i ==> {
                    &&& (#[trigger] r@[x]).0.board@ == succ[x]
                    &&& r@[x].0.len_i == b.len_i
                    &&& r@[x].0.len_j == b.len_j
                    &&& r@[x].1 == 1
                },
        decreases buffer@.len() - i,
    {
        let c = Board { len_i: buffer[i].len_i, len_j: buffer[i].len_j, board: copy_cells(&buffer[i].board) };
        proof {
            crate::moves::lemma_successor_len(b.board@, b.len_j as int, i as int);
        }
        r.push((c, 1));
        i = i + 1;
    }
    proof {
        assert forall|x: int| 0 <= x < r@.len() implies (#[trigger] r@[x]).0.wf() by {
            crate::moves::lemma_successor_len(b.board@, b.len_j as int, x);
        }
    }
    r
}

/// Along every run from `source` that ends on a board meeting `target`, the
/// estimate at each board is at most the number of turns still to go on that
/// run: the estimate never exceeds the turns left from a reachable board.
pub open spec fn estimate_never_exceeds(source: Board, target: Seq<u8>) -> bool {
    forall|p: Seq<Board>, i: int|
        is_run(p, source) && goal(p.last().board@, target) && 0 <= i < p.len() ==> heuristic(
            #[trigger] p[i].board@,
            target,
        ) <= p.len() - 1 - i
}

/// Relies on `pathfinding::directed::astar::astar`: started on `source` with
/// `expand` as the successor function, `cost` as the estimate and
/// `matches_target` as the goal test, it hands back the path that it found,
/// from `source` itself to a board that passed the goal test, each board one
/// of the successors of the one before, with the sum of the edge costs (one
/// each); it returns `None` only after every board that it reached, which is
/// every board reachable from `source`, failed the goal test. As its
/// documentation says, the path is a shortest one where the estimate never
/// exceeds the real cost. It tests the start first, so where `source` meets
/// the target it returns the one-board path without expanding anything. The
/// two counts are those that `expand` kept.
#[verifier::external_body]
fn astar_search(source: &Board, target: &Board) -> (r: (usize, usize, Option<(Vec<Board>, i32)>))
    requires
        source.wf(),
        target.board@.len() == source.board@.len(),
    ensures
        match r.2 {
            Some((p, c)) => {
                &&& is_run(p@, *source)
                &&& goal(p@.last().board@, target.board@)
                &&& c == p@.len() - 1
                &&& estimate_never_exceeds(*source, target.board@) ==> forall|q: Seq<Board>|
                    is_run(q, *source) && goal(#[trigger] q.last().board@, target.board@) ==> q.len() - 1
                        >= c
            },
            None => forall|p: Seq<Board>| is_run(p, *source) ==> !goal(#[trigger] p.last().board@, target.board@),
        },
        r.0 == 0 || !goal(source.board@, target.board@),
        r.1 == 0 || !goal(source.board@, target.board@),
        match r.2 {
            Some((p, c)) => p@.len() == 1 && c == 0 || !goal(source.board@, target.board@),
            None => !goal(source.board@, target.board@),
        },
{
    let mut visited: usize = 0;
    let mut generated: usize = 0;
    let result = pathfinding::directed::astar::astar(
        source,
        |b| expand(b, &mut visited, &mut generated),
        |b| cost(b, target),
        |b| matches_target(b, target),
    );
    (visited, generated, result)
}

/// Searches for a shortest sequence of turns from `source` to a board that
/// matches `target`. Returns how many boards were expanded, how many
/// successors were generated, and either the boards of the path found with
/// its number of turns, or `None` where no board reachable from `source`
/// matches `target`. The number of turns is least where the estimate never
/// exceeds the turns left.
pub fn solve(source: &Board, target: &Board) -> (r: (usize, usize, Option<(Vec<Board>, i32)>))
    requires
        source.wf(),
        source.len_i == target.len_i,
        source.len_j == target.len_j,
        target.wf(),
    ensures
        match r.2 {
            Some((p, c)) => {
                &&& is_run(p@, *source)
                &&& goal(p@.last().board@, target.board@)
                &&& c == p@.len() - 1
                &&& estimate_never_exceeds(*source, target.board@) ==> forall|q: Seq<Board>|
                    is_run(q, *source) && goal(#[trigger] q.last().board@, target.board@) ==> q.len() - 1
                        >= c
            },
            None => forall|p: Seq<Board>| is_run(p, *source) ==> !goal(#[trigger] p.last().board@, target.board@),
        },
        r.0 == 0 || !goal(source.board@, target.board@),
        r.1 == 0 || !goal(source.board@, target.board@),
        match r.2 {
            Some((p, c)) => p@.len() == 1 && c == 0 || !goal(source.board@, target.board@),
            None => !goal(source.board@, target.board@),
        },
{
    astar_search(source, target)
}

/// A copy of `v`.
fn copy_cells(v: &Vec<u8>) -> (r: Vec<u8>)
    ensures
        r@ == v@,
{
    let mut r: Vec<u8> = Vec::new();
    let mut i: usize = 0;
    while i < v.len()
        invariant
            i <= v@.len(),
            r@ == v@.take(i as int),
        decreases v@.len() - i,
    {
        r.push(v[i]);
        proof {
            assert(v@.take(i + 1) =~= v@.take(i as int).push(v@[i as int]));
        }
        i = i + 1;
    }
    assert(v@.take(v@.len() as int) =~= v@);
    r
}

} // verus!
