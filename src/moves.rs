use vstd::arithmetic::div_mod::{lemma_fundamental_div_mod, lemma_fundamental_div_mod_converse};
use vstd::arithmetic::mul::lemma_mul_is_commutative;
use vstd::prelude::*;

use crate::board::{
    canon, empty_cells, first_spaces, lemma_canon_keeps_walls_and_spaces, normalize, Board, SPACE, WALL,
};

verus! {

/// A direction in which a piece slides.
#[derive(Clone, Copy, PartialEq, Eq, Debug, Structural)]
pub enum Dir {
    Right,
    Left,
    Down,
    Up,
}

/// The direction back.
pub open spec fn opposite(d: Dir) -> Dir {
    match d {
        Dir::Right => Dir::Left,
        Dir::Left => Dir::Right,
        Dir::Down => Dir::Up,
        Dir::Up => Dir::Down,
    }
}

/// The four directions in the order in which moves are tried.
pub open spec fn dir_at(i: int) -> Dir {
    if i == 0 {
        Dir::Right
    } else if i == 1 {
        Dir::Left
    } else if i == 2 {
        Dir::Down
    } else {
        Dir::Up
    }
}

/// The flat index one step from cell `k` in direction `d` on a grid of `n`
/// cells and width `w`, or -1 where that step leaves the grid.
pub open spec fn dest(n: int, w: int, k: int, d: Dir) -> int {
    match d {
        Dir::Right => if k % w + 1 < w && k + 1 < n { k + 1 } else { -1 },
        Dir::Left => if k % w > 0 && k > 0 { k - 1 } else { -1 },
        Dir::Down => if k + w < n { k + w } else { -1 },
        Dir::Up => if k >= w { k - w } else { -1 },
    }
}

/// Piece `m` is on the board and every cell of it can take one step in
/// direction `d`: it stays on the grid and lands on an empty cell or on a cell of `m` itself.
pub open spec fn legal(s: Seq<u8>, w: int, m: u8, d: Dir) -> bool {
    &&& exists|k: int| 0 <= k < s.len() && s[k] == m
    &&& forall|k: int|
        0 <= k < s.len() && s[k] == m ==> {
            let t = #[trigger] dest(s.len() as int, w, k, d);
            t >= 0 && (s[t] == SPACE || s[t] == m)
        }
}

/// The cells after piece `m` has taken one step in direction `d`: a cell
/// holds `m` when the cell behind it held `m`, and a cell that held `m` and
/// receives nothing becomes empty.
pub open spec fn shifted(s: Seq<u8>, w: int, m: u8, d: Dir) -> Seq<u8> {
    Seq::new(
        s.len(),
        |k: int|
            {
                let j = dest(s.len() as int, w, k, opposite(d));
                if j >= 0 && s[j] == m {
                    m
                } else if s[k] == m {
                    SPACE
                } else {
                    s[k]
                }
            },
    )
}

/// The boards, in canonical form, that one turn of pushing piece `m` yields
/// when it starts with a step in direction `d`: first those where the push
/// goes on (in each direction but back), then the board after this step.
/// `fuel` bounds the length of the push, so that the recursion ends; the
/// search passes the number of cells of the board.
pub open spec fn chain(s: Seq<u8>, w: int, m: u8, d: Dir, fuel: nat) -> Seq<Seq<u8>>
    decreases fuel,
{
    if fuel == 0 || !legal(s, w, m, d) {
        seq![]
    } else {
        let t = shifted(s, w, m, d);
        let f = (fuel - 1) as nat;
        (if d != Dir::Left { chain(t, w, m, Dir::Right, f) } else { seq![] })
            + (if d != Dir::Right { chain(t, w, m, Dir::Left, f) } else { seq![] })
            + (if d != Dir::Up { chain(t, w, m, Dir::Down, f) } else { seq![] })
            + (if d != Dir::Down { chain(t, w, m, Dir::Up, f) } else { seq![] })
            + seq![canon(t)]
    }
}

/// The candidate moves found by looking around the empty cells `e`, after
/// `i` of the looks (four per empty cell): the piece seen and the direction
/// towards the empty cell, each pair once, in order of discovery.
pub open spec fn cand_scan(s: Seq<u8>, w: int, e: Seq<int>, i: int) -> Seq<(u8, Dir)>
    decreases i,
{
    if i <= 0 {
        seq![]
    } else {
        let acc = cand_scan(s, w, e, i - 1);
        let x = (i - 1) / 4;
        let d = dir_at((i - 1) % 4);
        if x < e.len() {
            let t = dest(s.len() as int, w, e[x], d);
            if t >= 0 && s[t] != WALL && s[t] != SPACE && !acc.contains((s[t], opposite(d))) {
                acc.push((s[t], opposite(d)))
            } else {
                acc
            }
        } else {
            acc
        }
    }
}

/// The candidate moves of a board.
pub open spec fn candidates(s: Seq<u8>, w: int) -> Seq<(u8, Dir)> {
    cand_scan(s, w, first_spaces(s, s.len() as int), 8)
}

/// The boards that the first `i` candidates `cs` yield, in order.
pub open spec fn moves_of(s: Seq<u8>, w: int, cs: Seq<(u8, Dir)>, i: int) -> Seq<Seq<u8>>
    decreases i,
{
    if i <= 0 || i > cs.len() {
        seq![]
    } else {
        moves_of(s, w, cs, i - 1) + chain(s, w, cs[i - 1].0, cs[i - 1].1, s.len())
    }
}

/// The boards reachable from `s` in one turn, in canonical form.
pub open spec fn successors(s: Seq<u8>, w: int) -> Seq<Seq<u8>> {
    moves_of(s, w, candidates(s, w), candidates(s, w).len() as int)
}

/// Every sequence of `ss` has length `n`.
pub open spec fn all_len(ss: Seq<Seq<u8>>, n: nat) -> bool {
    forall|x: int| 0 <= x < ss.len() ==> (#[trigger] ss[x]).len() == n
}

proof fn lemma_all_len_concat(a: Seq<Seq<u8>>, b: Seq<Seq<u8>>, n: nat)
    requires
        all_len(a, n),
        all_len(b, n),
    ensures
        all_len(a + b, n),
{
    assert forall|x: int| 0 <= x < (a + b).len() implies (#[trigger] (a + b)[x]).len() == n by {
        if x >= a.len() {
            assert((a + b)[x] == b[x - a.len()]);
        }
    }
}

proof fn lemma_chain_len(s: Seq<u8>, w: int, m: u8, d: Dir, fuel: nat)
    ensures
        all_len(chain(s, w, m, d, fuel), s.len()),
    decreases fuel,
{
    if fuel > 0 && legal(s, w, m, d) {
        let t = shifted(s, w, m, d);
        let f = (fuel - 1) as nat;
        let n = s.len();
        lemma_chain_len(t, w, m, Dir::Right, f);
        lemma_chain_len(t, w, m, Dir::Left, f);
        lemma_chain_len(t, w, m, Dir::Down, f);
        lemma_chain_len(t, w, m, Dir::Up, f);
        let c1: Seq<Seq<u8>> = if d != Dir::Left { chain(t, w, m, Dir::Right, f) } else { seq![] };
        let c2: Seq<Seq<u8>> = if d != Dir::Right { chain(t, w, m, Dir::Left, f) } else { seq![] };
        let c3: Seq<Seq<u8>> = if d != Dir::Up { chain(t, w, m, Dir::Down, f) } else { seq![] };
        let c4: Seq<Seq<u8>> = if d != Dir::Down { chain(t, w, m, Dir::Up, f) } else { seq![] };
        let last: Seq<Seq<u8>> = seq![canon(t)];
        assert(all_len(last, n));
        lemma_all_len_concat(c1, c2, n);
        lemma_all_len_concat(c1 + c2, c3, n);
        lemma_all_len_concat(c1 + c2 + c3, c4, n);
        lemma_all_len_concat(c1 + c2 + c3 + c4, last, n);
        assert(chain(s, w, m, d, fuel) == c1 + c2 + c3 + c4 + last);
    }
}

proof fn lemma_moves_len(s: Seq<u8>, w: int, cs: Seq<(u8, Dir)>, i: int)
    ensures
        all_len(moves_of(s, w, cs, i), s.len()),
    decreases i,
{
    if 0 < i <= cs.len() {
        lemma_moves_len(s, w, cs, i - 1);
        lemma_chain_len(s, w, cs[i - 1].0, cs[i - 1].1, s.len());
        lemma_all_len_concat(
            moves_of(s, w, cs, i - 1),
            chain(s, w, cs[i - 1].0, cs[i - 1].1, s.len()),
            s.len(),
        );
    }
}

/// Every successor of a board has as many cells as the board.
pub proof fn lemma_successor_len(s: Seq<u8>, w: int, i: int)
    requires
        0 <= i < successors(s, w).len(),
    ensures
        successors(s, w)[i].len() == s.len(),
{
    lemma_moves_len(s, w, candidates(s, w), candidates(s, w).len() as int);
}

/// `t` differs from `s` only where piece `m` moved: every changed cell held
/// `m` or was empty, and holds `m` or is empty.
pub open spec fn only_piece_moved(s: Seq<u8>, t: Seq<u8>, m: u8) -> bool {
    &&& t.len() == s.len()
    &&& forall|k: int|
        0 <= k < s.len() ==> #[trigger] t[k] == s[k] || ((s[k] == m || s[k] == SPACE) && (t[k] == m
            || t[k] == SPACE))
}

/// `x` is the canonical form of cells reached from `s` by moving piece `m`
/// alone.
pub open spec fn from_piece_move(x: Seq<u8>, s: Seq<u8>, m: u8) -> bool {
    exists|t: Seq<u8>| only_piece_moved(s, t, m) && x == canon(t)
}

/// Every board of `ss` is reached from `s` by moving piece `m` alone.
pub open spec fn all_from_piece_moves(ss: Seq<Seq<u8>>, s: Seq<u8>, m: u8) -> bool {
    forall|i: int| 0 <= i < ss.len() ==> from_piece_move(#[trigger] ss[i], s, m)
}

proof fn lemma_only_piece_moved_trans(s: Seq<u8>, t: Seq<u8>, u: Seq<u8>, m: u8)
    requires
        only_piece_moved(s, t, m),
        only_piece_moved(t, u, m),
    ensures
        only_piece_moved(s, u, m),
{
    assert forall|k: int| 0 <= k < s.len() implies #[trigger] u[k] == s[k] || ((s[k] == m || s[k]
        == SPACE) && (u[k] == m || u[k] == SPACE)) by {
        assert(t[k] == s[k] || ((s[k] == m || s[k] == SPACE) && (t[k] == m || t[k] == SPACE)));
        assert(u[k] == t[k] || ((t[k] == m || t[k] == SPACE) && (u[k] == m || u[k] == SPACE)));
    }
}

proof fn lemma_all_from_concat(a: Seq<Seq<u8>>, b: Seq<Seq<u8>>, s: Seq<u8>, m: u8)
    requires
        all_from_piece_moves(a, s, m),
        all_from_piece_moves(b, s, m),
    ensures
        all_from_piece_moves(a + b, s, m),
{
    assert forall|i: int| 0 <= i < (a + b).len() implies from_piece_move(#[trigger] (a + b)[i], s, m) by {
        if i < a.len() {
            assert((a + b)[i] == a[i]);
        } else {
            assert((a + b)[i] == b[i - a.len()]);
        }
    }
}

proof fn lemma_all_from_step(ss: Seq<Seq<u8>>, s: Seq<u8>, t: Seq<u8>, m: u8)
    requires
        only_piece_moved(s, t, m),
        all_from_piece_moves(ss, t, m),
    ensures
        all_from_piece_moves(ss, s, m),
{
    assert forall|i: int| 0 <= i < ss.len() implies from_piece_move(#[trigger] ss[i], s, m) by {
        assert(from_piece_move(ss[i], t, m));
        let u = choose|u: Seq<u8>| only_piece_moved(t, u, m) && ss[i] == canon(u);
        lemma_only_piece_moved_trans(s, t, u, m);
    }
}

/// Every board that a push of piece `m` yields, chained steps included, is
/// the canonical form of cells where only `m` moved: no piece moves into or
/// through a wall or another piece, and walls and other pieces stay put.
pub proof fn lemma_chain_moves_piece_only(s: Seq<u8>, w: int, m: u8, d: Dir, fuel: nat)
    requires
        w > 0,
        m != SPACE,
    ensures
        all_from_piece_moves(chain(s, w, m, d, fuel), s, m),
    decreases fuel,
{
    if fuel > 0 && legal(s, w, m, d) {
        let t = shifted(s, w, m, d);
        let f = (fuel - 1) as nat;
        lemma_slide_legal(s, w, m, d);
        assert(only_piece_moved(s, t, m));
        lemma_chain_moves_piece_only(t, w, m, Dir::Right, f);
        lemma_chain_moves_piece_only(t, w, m, Dir::Left, f);
        lemma_chain_moves_piece_only(t, w, m, Dir::Down, f);
        lemma_chain_moves_piece_only(t, w, m, Dir::Up, f);
        let c1: Seq<Seq<u8>> = if d != Dir::Left { chain(t, w, m, Dir::Right, f) } else { seq![] };
        let c2: Seq<Seq<u8>> = if d != Dir::Right { chain(t, w, m, Dir::Left, f) } else { seq![] };
        let c3: Seq<Seq<u8>> = if d != Dir::Up { chain(t, w, m, Dir::Down, f) } else { seq![] };
        let c4: Seq<Seq<u8>> = if d != Dir::Down { chain(t, w, m, Dir::Up, f) } else { seq![] };
        let last: Seq<Seq<u8>> = seq![canon(t)];
        lemma_all_from_step(c1, s, t, m);
        lemma_all_from_step(c2, s, t, m);
        lemma_all_from_step(c3, s, t, m);
        lemma_all_from_step(c4, s, t, m);
        assert(only_piece_moved(s, t, m) && last[0] == canon(t));
        assert(from_piece_move(last[0], s, m));
        lemma_all_from_concat(c1, c2, s, m);
        lemma_all_from_concat(c1 + c2, c3, s, m);
        lemma_all_from_concat(c1 + c2 + c3, c4, s, m);
        lemma_all_from_concat(c1 + c2 + c3 + c4, last, s, m);
        assert(chain(s, w, m, d, fuel) == c1 + c2 + c3 + c4 + last);
    }
}

proof fn lemma_cand_pieces(s: Seq<u8>, w: int, e: Seq<int>, i: int)
    ensures
        forall|j: int|
            0 <= j < cand_scan(s, w, e, i).len() ==> (#[trigger] cand_scan(s, w, e, i)[j]).0 != SPACE
                && cand_scan(s, w, e, i)[j].0 != WALL,
    decreases i,
{
    if i > 0 {
        lemma_cand_pieces(s, w, e, i - 1);
        let acc = cand_scan(s, w, e, i - 1);
        let cur = cand_scan(s, w, e, i);
        assert(cur == acc || (cur.len() == acc.len() + 1 && cur.drop_last() == acc && cur.last().0 != SPACE
            && cur.last().0 != WALL));
        assert forall|j: int| 0 <= j < cur.len() implies (#[trigger] cur[j]).0 != SPACE && cur[j].0
            != WALL by {
            if j < acc.len() {
                assert(cur[j] == acc[j]);
            }
        }
    }
}

/// `x` is reached from `s` by moving one piece alone.
pub open spec fn from_some_piece_move(x: Seq<u8>, s: Seq<u8>) -> bool {
    exists|m: u8| m != SPACE && m != WALL && from_piece_move(x, s, m)
}

proof fn lemma_moves_from(s: Seq<u8>, w: int, cs: Seq<(u8, Dir)>, i: int)
    requires
        w > 0,
        forall|j: int| 0 <= j < cs.len() ==> (#[trigger] cs[j]).0 != SPACE && cs[j].0 != WALL,
    ensures
        forall|x: int|
            0 <= x < moves_of(s, w, cs, i).len() ==> from_some_piece_move(
                #[trigger] moves_of(s, w, cs, i)[x],
                s,
            ),
    decreases i,
{
    if 0 < i <= cs.len() {
        lemma_moves_from(s, w, cs, i - 1);
        let m = cs[i - 1].0;
        let a = moves_of(s, w, cs, i - 1);
        let c = chain(s, w, m, cs[i - 1].1, s.len());
        lemma_chain_moves_piece_only(s, w, m, cs[i - 1].1, s.len());
        assert forall|x: int| 0 <= x < (a + c).len() implies from_some_piece_move(#[trigger] (a + c)[x], s) by {
            if x >= a.len() {
                assert((a + c)[x] == c[x - a.len()]);
                assert(from_piece_move(c[x - a.len()], s, m));
            } else {
                assert((a + c)[x] == a[x]);
            }
        }
    }
}

/// Every board reachable in one turn has its walls exactly where the board
/// had them: a turn moves one piece, never into or through a wall.
pub proof fn lemma_successors_keep_walls(s: Seq<u8>, w: int)
    requires
        w > 0,
    ensures
        forall|i: int|
            0 <= i < successors(s, w).len() ==> {
                let x = #[trigger] successors(s, w)[i];
                &&& x.len() == s.len()
                &&& forall|k: int| 0 <= k < s.len() ==> (x[k] == WALL <==> s[k] == WALL)
            },
{
    let cs = candidates(s, w);
    lemma_cand_pieces(s, w, first_spaces(s, s.len() as int), 8);
    lemma_moves_from(s, w, cs, cs.len() as int);
    assert forall|i: int| 0 <= i < successors(s, w).len() implies {
        let x = #[trigger] successors(s, w)[i];
        &&& x.len() == s.len()
        &&& forall|k: int| 0 <= k < s.len() ==> (x[k] == WALL <==> s[k] == WALL)
    } by {
        let x = successors(s, w)[i];
        assert(from_some_piece_move(x, s));
        let m = choose|m: u8| m != SPACE && m != WALL && from_piece_move(x, s, m);
        let t = choose|t: Seq<u8>| only_piece_moved(s, t, m) && x == canon(t);
        lemma_canon_keeps_walls_and_spaces(t);
        assert forall|k: int| 0 <= k < s.len() implies (x[k] == WALL <==> s[k] == WALL) by {
            assert(t[k] == s[k] || ((s[k] == m || s[k] == SPACE) && (t[k] == m || t[k] == SPACE)));
            assert(canon(t)[k] == WALL <==> t[k] == WALL);
        }
    }
}

/// `out` grew by boards of height `h` and width `w` whose cells are `add`.
pub open spec fn appended(old_out: Seq<Board>, new_out: Seq<Board>, h: usize, w: usize, add: Seq<Seq<u8>>) -> bool {
    &&& new_out.len() == old_out.len() + add.len()
    &&& forall|i: int| 0 <= i < old_out.len() ==> new_out[i] == old_out[i]
    &&& forall|i: int|
        0 <= i < add.len() ==> {
            let b = #[trigger] new_out[old_out.len() + i];
            b.board@ == add[i] && b.len_i == h && b.len_j == w
        }
}

fn opposite_of(d: Dir) -> (r: Dir)
    ensures
        r == opposite(d),
{
    match d {
        Dir::Right => Dir::Left,
        Dir::Left => Dir::Right,
        Dir::Down => Dir::Up,
        Dir::Up => Dir::Down,
    }
}

fn dir_of(i: usize) -> (r: Dir)
    ensures
        r == dir_at(i as int),
{
    if i == 0 {
        Dir::Right
    } else if i == 1 {
        Dir::Left
    } else if i == 2 {
        Dir::Down
    } else {
        Dir::Up
    }
}

/// The cell one step from `k` in direction `d`, if it is on the grid.
fn step(n: usize, w: usize, k: usize, d: Dir) -> (r: Option<usize>)
    requires
        w > 0,
        k < n,
    ensures
        match r {
            Some(t) => t == dest(n as int, w as int, k as int, d) && t < n,
            None => dest(n as int, w as int, k as int, d) == -1,
        },
{
    match d {
        Dir::Right => if k % w + 1 < w && k + 1 < n { Some(k + 1) } else { None },
        Dir::Left => if k % w > 0 && k > 0 { Some(k - 1) } else { None },
        Dir::Down => if w < n && k < n - w { Some(k + w) } else { None },
        Dir::Up => if k >= w { Some(k - w) } else { None },
    }
}

/// Whether every cell of piece `m` can take one step in direction `d`.
fn can_step(s: &Vec<u8>, w: usize, m: u8, d: Dir) -> (r: bool)
    requires
        w > 0,
    ensures
        r == legal(s@, w as int, m, d),
{
    let n = s.len();
    let mut found = false;
    let mut k: usize = 0;
    while k < n
        invariant
            k <= n,
            n == s@.len(),
            w > 0,
            found == exists|x: int| 0 <= x < k && s@[x] == m,
            forall|x: int|
                0 <= x < k && s@[x] == m ==> {
                    let t = #[trigger] dest(n as int, w as int, x, d);
                    t >= 0 && (s@[t] == SPACE || s@[t] == m)
                },
        decreases n - k,
    {
        if s[k] == m {
            found = true;
            match step(n, w, k, d) {
                Some(t) => {
                    if s[t] != SPACE && s[t] != m {
                        return false;
                    }
                },
                None => {
                    return false;
                },
            }
        }
        proof {
            if s@[k as int] == m {
                assert(0 <= k < k + 1 && s@[k as int] == m);
            }
            if exists|x: int| 0 <= x < k + 1 && s@[x] == m {
                let x = choose|x: int| 0 <= x < k + 1 && s@[x] == m;
                if x < k {
                    assert(0 <= x < k && s@[x] == m);
                }
            }
        }
        k = k + 1;
    }
    found
}

/// The cells after piece `m` has taken one step in direction `d`.
fn shift(s: &Vec<u8>, w: usize, m: u8, d: Dir) -> (r: Vec<u8>)
    requires
        w > 0,
    ensures
        r@ == shifted(s@, w as int, m, d),
{
    let n = s.len();
    let back = opposite_of(d);
    let mut r: Vec<u8> = Vec::new();
    let mut k: usize = 0;
    while k < n
        invariant
            k <= n,
            n == s@.len(),
            w > 0,
            back == opposite(d),
            r@.len() == k,
            forall|x: int| 0 <= x < k ==> r@[x] == #[trigger] shifted(s@, w as int, m, d)[x],
        decreases n - k,
    {
        let from_behind = match step(n, w, k, back) {
            Some(j) => s[j] == m,
            None => false,
        };
        if from_behind {
            r.push(m);
        } else if s[k] == m {
            r.push(SPACE);
        } else {
            r.push(s[k]);
        }
        k = k + 1;
    }
    assert(r@ =~= shifted(s@, w as int, m, d));
    r
}

/// Pushes piece `m` one step in direction `d` and, where it moves, keeps
/// pushing it in every direction but back; each board reached is appended to
/// `out` in canonical form, as `chain` orders them.
#[verifier::rlimit(50)]
fn slide(s: &Vec<u8>, h: usize, w: usize, m: u8, d: Dir, fuel: usize, out: &mut Vec<Board>)
    requires
        w > 0,
        s@.len() == h * w,
    ensures
        appended(old(out)@, final(out)@, h, w, chain(s@, w as int, m, d, fuel as nat)),
    decreases fuel,
{
    if fuel == 0 || !can_step(s, w, m, d) {
        assert(chain(s@, w as int, m, d, fuel as nat) =~= seq![]);
        return;
    }
    let t = shift(s, w, m, d);
    let f = fuel - 1;
    let ghost o0 = out@;
    if d != Dir::Left {
        slide(&t, h, w, m, Dir::Right, f, out);
    }
    let ghost o1 = out@;
    if d != Dir::Right {
        slide(&t, h, w, m, Dir::Left, f, out);
    }
    let ghost o2 = out@;
    if d != Dir::Up {
        slide(&t, h, w, m, Dir::Down, f, out);
    }
    let ghost o3 = out@;
    if d != Dir::Down {
        slide(&t, h, w, m, Dir::Up, f, out);
    }
    let ghost o4 = out@;
    let mut b = Board { len_i: h, len_j: w, board: t };
    normalize(&mut b);
    out.push(b);
    proof {
        let ts = shifted(s@, w as int, m, d);
        let fl = f as nat;
        let c1: Seq<Seq<u8>> = if d != Dir::Left { chain(ts, w as int, m, Dir::Right, fl) } else { seq![] };
        let c2: Seq<Seq<u8>> = if d != Dir::Right { chain(ts, w as int, m, Dir::Left, fl) } else { seq![] };
        let c3: Seq<Seq<u8>> = if d != Dir::Up { chain(ts, w as int, m, Dir::Down, fl) } else { seq![] };
        let c4: Seq<Seq<u8>> = if d != Dir::Down { chain(ts, w as int, m, Dir::Up, fl) } else { seq![] };
        let all = c1 + c2 + c3 + c4 + seq![canon(ts)];
        assert(chain(s@, w as int, m, d, fuel as nat) == all);
        assert(appended(o0, o1, h, w, c1));
        assert(appended(o1, o2, h, w, c2));
        assert(appended(o2, o3, h, w, c3));
        assert(appended(o3, o4, h, w, c4));
        assert forall|i: int| 0 <= i < all.len() implies {
            let b = #[trigger] out@[o0.len() + i];
            b.board@ == all[i] && b.len_i == h && b.len_j == w
        } by {
            if i < c1.len() {
                assert(out@[o0.len() + i] == o1[o0.len() + i]);
            } else if i < c1.len() + c2.len() {
                let x = i - c1.len();
                assert(out@[o0.len() + i] == o2[o1.len() + x]);
            } else if i < c1.len() + c2.len() + c3.len() {
                let x = i - c1.len() - c2.len();
                assert(out@[o0.len() + i] == o3[o2.len() + x]);
            } else if i < c1.len() + c2.len() + c3.len() + c4.len() {
                let x = i - c1.len() - c2.len() - c3.len();
                assert(out@[o0.len() + i] == o4[o3.len() + x]);
            }
        }
    }
}

/// Whether `cs` already holds the candidate `(m, d)`.
fn has_candidate(cs: &Vec<(u8, Dir)>, m: u8, d: Dir) -> (r: bool)
    ensures
        r == cs@.contains((m, d)),
{
    let mut i: usize = 0;
    while i < cs.len()
        invariant
            i <= cs@.len(),
            forall|x: int| 0 <= x < i ==> cs@[x] != (m, d),
        decreases cs@.len() - i,
    {
        if cs[i].0 == m && cs[i].1 == d {
            assert(cs@[i as int] == (m, d));
            return true;
        }
        i = i + 1;
    }
    false
}

/// The candidate moves of a board: for each of its first two empty cells and
/// each direction, the piece next to it and the direction towards the empty
/// cell, each pair once.
fn find_candidates(s: &Vec<u8>, w: usize) -> (r: Vec<(u8, Dir)>)
    requires
        w > 0,
    ensures
        r@ == candidates(s@, w as int),
{
    let n = s.len();
    let e = empty_cells(s);
    let ghost es = first_spaces(s@, n as int);
    proof {
        crate::board::lemma_first_spaces(s@, n as int);
    }
    let mut cs: Vec<(u8, Dir)> = Vec::new();
    let mut i: usize = 0;
    while i < 8
        invariant
            i <= 8,
            w > 0,
            n == s@.len(),
            e@.map_values(|x: usize| x as int) == es,
            es == first_spaces(s@, n as int),
            forall|x: int| 0 <= x < es.len() ==> 0 <= #[trigger] es[x] < n,
            cs@ == cand_scan(s@, w as int, es, i as int),
        decreases 8 - i,
    {
        let x = i / 4;
        let d = dir_of(i % 4);
        if x < e.len() {
            assert(e@[x as int] as int == es[x as int]);
            match step(n, w, e[x], d) {
                Some(t) => {
                    let c = s[t];
                    let back = opposite_of(d);
                    if c != WALL && c != SPACE && !has_candidate(&cs, c, back) {
                        cs.push((c, back));
                    }
                },
                None => {},
            }
        }
        i = i + 1;
    }
    cs
}

/// Appends to `out` every board reachable from `board` in one turn, in
/// canonical form, in the order of `successors`.
pub fn perform_moves(board: &Board, out: &mut Vec<Board>)
    requires
        board.wf(),
    ensures
        appended(
            old(out)@,
            final(out)@,
            board.len_i,
            board.len_j,
            successors(board.board@, board.len_j as int),
        ),
{
    let ghost s = board.board@;
    let ghost w = board.len_j as int;
    let cs = find_candidates(&board.board, board.len_j);
    let ghost o0 = out@;
    let mut i: usize = 0;
    while i < cs.len()
        invariant
            i <= cs@.len(),
            board.wf(),
            s == board.board@,
            w == board.len_j,
            cs@ == candidates(s, w),
            appended(o0, out@, board.len_i, board.len_j, moves_of(s, w, cs@, i as int)),
        decreases cs@.len() - i,
    {
        let ghost o1 = out@;
        let (m, d) = cs[i];
        slide(&board.board, board.len_i, board.len_j, m, d, board.board.len(), out);
        proof {
            let prev = moves_of(s, w, cs@, i as int);
            let c = chain(s, w, m, d, s.len());
            assert(moves_of(s, w, cs@, i + 1) == prev + c);
            assert forall|x: int| 0 <= x < prev.len() + c.len() implies {
                let b = #[trigger] out@[o0.len() + x];
                b.board@ == (prev + c)[x] && b.len_i == board.len_i && b.len_j == board.len_j
            } by {
                if x < prev.len() {
                    assert(out@[o0.len() + x] == o1[o0.len() + x]);
                } else {
                    assert(out@[o0.len() + x] == out@[o1.len() + (x - prev.len())]);
                }
            }
        }
        i = i + 1;
    }
}

/// A step back and then forward returns to the cell it started from.
proof fn lemma_step_back(n: int, w: int, k: int, d: Dir)
    requires
        w > 0,
        0 <= k < n,
        dest(n, w, k, opposite(d)) >= 0,
    ensures
        0 <= dest(n, w, k, opposite(d)) < n,
        dest(n, w, dest(n, w, k, opposite(d)), d) == k,
{
    lemma_fundamental_div_mod(k, w);
    lemma_mul_is_commutative(k / w, w);
    match d {
        Dir::Right => {
            lemma_fundamental_div_mod_converse(k - 1, w, k / w, k % w - 1);
        },
        Dir::Left => {
            lemma_fundamental_div_mod_converse(k + 1, w, k / w, k % w + 1);
        },
        _ => {},
    }
}

/// A legal step of a piece moves nothing into a wall or into another piece:
/// only cells that held the piece or were empty change, and each of them ends
/// up holding the piece or empty; every cell of the piece afterwards is one
/// step from a cell of the piece before.
pub proof fn lemma_slide_legal(s: Seq<u8>, w: int, m: u8, d: Dir)
    requires
        w > 0,
        legal(s, w, m, d),
    ensures
        shifted(s, w, m, d).len() == s.len(),
        forall|k: int|
            0 <= k < s.len() && #[trigger] shifted(s, w, m, d)[k] != s[k] ==> (s[k] == m || s[k] == SPACE)
                && (shifted(s, w, m, d)[k] == m || shifted(s, w, m, d)[k] == SPACE),
        forall|k: int|
            0 <= k < s.len() && #[trigger] shifted(s, w, m, d)[k] == m && m != SPACE ==> {
                let j = dest(s.len() as int, w, k, opposite(d));
                &&& 0 <= j < s.len()
                &&& s[j] == m
                &&& dest(s.len() as int, w, j, d) == k
            },
{
    let n = s.len() as int;
    let t = shifted(s, w, m, d);
    assert forall|k: int| 0 <= k < n && #[trigger] t[k] != s[k] implies (s[k] == m || s[k] == SPACE) && (
    t[k] == m || t[k] == SPACE) by {
        let j = dest(n, w, k, opposite(d));
        if j >= 0 {
            lemma_step_back(n, w, k, d);
            if s[j] == m {
                assert(dest(n, w, j, d) == k);
            }
        }
    }
    assert forall|k: int| 0 <= k < n && #[trigger] t[k] == m && m != SPACE implies {
        let j = dest(n, w, k, opposite(d));
        &&& 0 <= j < n
        &&& s[j] == m
        &&& dest(n, w, j, d) == k
    } by {
        let j = dest(n, w, k, opposite(d));
        if j >= 0 {
            lemma_step_back(n, w, k, d);
        }
    }
}

} // verus!
