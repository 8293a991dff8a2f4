use vstd::prelude::*;

verus! {

/// An empty cell.
pub const SPACE: u8 = 32;

/// A wall cell.
pub const WALL: u8 = 35;

/// First and last uppercase letters: the symbols of pieces with an identity.
pub const UPPER_FIRST: u8 = 65;

pub const UPPER_LAST: u8 = 90;

/// A cell of a piece that may be relabelled: anything but empty, wall or an
/// uppercase letter.
pub open spec fn is_fungible(c: u8) -> bool {
    c != SPACE && c != WALL && !(UPPER_FIRST <= c && c <= UPPER_LAST)
}

/// Labels given to the fungible symbols of `s`, in order of first appearance,
/// together with the number of labels handed out.
pub open spec fn label_table(s: Seq<u8>) -> (Map<u8, nat>, nat)
    decreases s.len(),
{
    if s.len() == 0 {
        (Map::empty(), 0)
    } else {
        let (m, n) = label_table(s.drop_last());
        let c = s.last();
        if is_fungible(c) && !m.contains_key(c) {
            (m.insert(c, n + 1), n + 1)
        } else {
            (m, n)
        }
    }
}

/// The byte that stands for canonical label `r`: the `r`-th nonzero fungible
/// byte (1 to 31, 33, 34, 36 to 64, then 91 to 255), and 0 for the 228th. So
/// a label never reads as an empty cell, a wall or an uppercase piece.
pub open spec fn label_byte(r: nat) -> u8 {
    if r <= 31 {
        r as u8
    } else if r <= 33 {
        (r + 1) as u8
    } else if r <= 62 {
        (r + 2) as u8
    } else if r <= 227 {
        (r + 28) as u8
    } else {
        0
    }
}

/// Labels `1..=228` are fungible bytes, no two the same.
pub proof fn lemma_label_byte(r: nat, q: nat)
    requires
        1 <= r <= 228,
        1 <= q <= 228,
    ensures
        is_fungible(label_byte(r)),
        label_byte(r) == label_byte(q) ==> r == q,
{
}

/// The byte of label `r`.
fn label_of(r: usize) -> (b: u8)
    requires
        1 <= r <= 228,
    ensures
        b == label_byte(r as nat),
{
    if r <= 31 {
        r as u8
    } else if r <= 33 {
        (r + 1) as u8
    } else if r <= 62 {
        (r + 2) as u8
    } else if r <= 227 {
        (r + 28) as u8
    } else {
        0
    }
}

/// The canonical form of a row-major cell sequence: each fungible symbol is
/// replaced by the byte of its rank of first appearance (1, 2, 3, ...).
/// Ranks never exceed 228 (`lemma_label_bound`).
pub open spec fn canon(s: Seq<u8>) -> Seq<u8> {
    Seq::new(
        s.len(),
        |k: int| if is_fungible(s[k]) { label_byte(label_table(s).0[s[k]]) } else { s[k] },
    )
}

/// A rectangular grid of cells, stored row-major.
#[derive(Clone, PartialEq, Eq, Hash, Debug)]
pub struct Board {
    pub len_i: usize,
    pub len_j: usize,
    pub board: Vec<u8>,
}

impl Board {
    /// Height and width are positive and the cells fill the rectangle.
    pub open spec fn wf(&self) -> bool {
        self.len_i >= 1 && self.len_j >= 1 && self.board@.len() == self.len_i * self.len_j
    }
}

proof fn lemma_table_prefix(s: Seq<u8>, i: int)
    requires
        0 <= i < s.len(),
    ensures
        ({
            let (m, n) = label_table(s.take(i));
            let c = s[i];
            label_table(s.take(i + 1)) == if is_fungible(c) && !m.contains_key(c) {
                (m.insert(c, n + 1), n + 1)
            } else {
                (m, n)
            }
        }),
{
    assert(s.take(i + 1).drop_last() =~= s.take(i));
}

/// A longer prefix keeps every label of a shorter one.
proof fn lemma_table_mono(s: Seq<u8>, i: int, j: int)
    requires
        0 <= i <= j <= s.len(),
    ensures
        forall|v: u8| #[trigger]
            label_table(s.take(i)).0.contains_key(v) ==> label_table(s.take(j)).0.contains_key(v)
                && label_table(s.take(j)).0[v] == label_table(s.take(i)).0[v],
        label_table(s.take(i)).1 <= label_table(s.take(j)).1,
    decreases j - i,
{
    if i < j {
        lemma_table_mono(s, i, j - 1);
        lemma_table_prefix(s, j - 1);
    }
}

/// Keys of the table of a prefix are the fungible symbols seen in it, and
/// labels lie in `1..=count`.
proof fn lemma_table_below(s: Seq<u8>, i: int)
    requires
        0 <= i <= s.len(),
    ensures
        forall|v: u8| #[trigger]
            label_table(s.take(i)).0.contains_key(v) <==> (is_fungible(v) && exists|k: int|
                0 <= k < i && s[k] == v),
        forall|v: u8| #[trigger]
            label_table(s.take(i)).0.contains_key(v) ==> 1 <= label_table(s.take(i)).0[v]
                <= label_table(s.take(i)).1,
        label_table(s.take(i)).1 <= i,
        forall|v: u8, x: u8|
            #[trigger] label_table(s.take(i)).0.contains_key(v) && #[trigger] label_table(
                s.take(i),
            ).0.contains_key(x) && label_table(s.take(i)).0[v] == label_table(s.take(i)).0[x]
                ==> v == x,
    decreases i,
{
    if i == 0 {
        assert(s.take(0) =~= Seq::<u8>::empty());
    } else {
        lemma_table_below(s, i - 1);
        lemma_table_prefix(s, i - 1);
        let (m, n) = label_table(s.take(i - 1));
        assert forall|v: u8| #[trigger]
            label_table(s.take(i)).0.contains_key(v) <==> (is_fungible(v) && exists|k: int|
                0 <= k < i && s[k] == v) by {
            if is_fungible(v) && (exists|k: int| 0 <= k < i && s[k] == v) {
                let k = choose|k: int| 0 <= k < i && s[k] == v;
                if k < i - 1 {
                    assert(m.contains_key(v));
                }
            }
            if m.contains_key(v) {
                let k = choose|k: int| 0 <= k < i - 1 && s[k] == v;
                assert(0 <= k < i && s[k] == v);
            }
            if label_table(s.take(i)).0.contains_key(v) && !m.contains_key(v) {
                assert(s[i - 1] == v);
            }
        }
    }
}

/// Whether `c` is a cell of a fungible piece.
pub fn fungible(c: u8) -> (r: bool)
    ensures
        r == is_fungible(c),
{
    c != SPACE && c != WALL && !(UPPER_FIRST <= c && c <= UPPER_LAST)
}

/// How many of the bytes `0..k` lie in `d`.
pub open spec fn count_in(d: Set<u8>, k: int) -> nat
    decreases k,
{
    if k <= 0 {
        0
    } else {
        count_in(d, k - 1) + if d.contains((k - 1) as u8) { 1nat } else { 0nat }
    }
}

proof fn lemma_count_in_empty(d: Set<u8>, k: int)
    requires
        d == Set::<u8>::empty(),
    ensures
        count_in(d, k) == 0,
    decreases k,
{
    if k > 0 {
        lemma_count_in_empty(d, k - 1);
    }
}

proof fn lemma_count_in_insert(d: Set<u8>, v: u8, k: int)
    requires
        !d.contains(v),
        0 <= k <= 256,
    ensures
        count_in(d.insert(v), k) == count_in(d, k) + if v < k { 1nat } else { 0nat },
    decreases k,
{
    if k > 0 {
        lemma_count_in_insert(d, v, k - 1);
    }
}

/// At most `k` less the uppercase letters, the empty cell and the wall below
/// `k`, when `d` holds fungible symbols only.
proof fn lemma_count_in_fungible(d: Set<u8>, k: int)
    requires
        0 <= k <= 256,
        forall|v: u8| #[trigger] d.contains(v) ==> is_fungible(v),
    ensures
        count_in(d, k) <= k - (if k > 32 { 1int } else { 0 }) - (if k > 35 { 1int } else { 0 }) - (if k
            > 90 { 26 } else if k > 65 { k - 65 } else { 0 }),
    decreases k,
{
    if k > 0 {
        lemma_count_in_fungible(d, k - 1);
        assert(d.contains((k - 1) as u8) ==> is_fungible((k - 1) as u8));
    }
}

/// There are never more labels than fungible bytes, 228: every label has a
/// byte of its own (`label_byte`).
pub proof fn lemma_label_bound(s: Seq<u8>)
    ensures
        label_table(s).1 == count_in(label_table(s).0.dom(), 256),
        label_table(s).1 <= 228,
    decreases s.len(),
{
    if s.len() == 0 {
        lemma_count_in_empty(label_table(s).0.dom(), 256);
    } else {
        lemma_label_bound(s.drop_last());
        let (m, n) = label_table(s.drop_last());
        let c = s.last();
        if is_fungible(c) && !m.contains_key(c) {
            lemma_count_in_insert(m.dom(), c, 256);
            assert(m.insert(c, n + 1).dom() == m.dom().insert(c));
        }
    }
    let d = label_table(s).0.dom();
    lemma_table_below(s, s.len() as int);
    assert(s.take(s.len() as int) =~= s);
    lemma_count_in_fungible(d, 256);
}

/// Relabels the fungible symbols of `b` in order of first row-major
/// appearance; walls, empty cells and uppercase pieces are left alone.
pub fn normalize(b: &mut Board)
    ensures
        final(b).len_i == old(b).len_i,
        final(b).len_j == old(b).len_j,
        final(b).board@ == canon(old(b).board@),
{
    let ghost s = b.board@;
    let n = b.board.len();
    let mut lookup: Vec<usize> = Vec::new();
    let mut v: usize = 0;
    while v < 256
        invariant
            v <= 256,
            lookup@.len() == v,
            forall|x: int| 0 <= x < v ==> lookup@[x] == 0,
        decreases 256 - v,
    {
        lookup.push(0);
        v = v + 1;
    }
    let mut count: usize = 0;
    let mut i: usize = 0;
    proof {
        assert(s.take(0) =~= Seq::<u8>::empty());
    }
    while i < n
        invariant
            i <= n,
            n == s.len(),
            b.board@.len() == n,
            b.len_i == old(b).len_i,
            b.len_j == old(b).len_j,
            s == old(b).board@,
            lookup@.len() == 256,
            forall|k: int| i <= k < n ==> b.board@[k] == s[k],
            forall|k: int|
                0 <= k < i ==> b.board@[k] == (if is_fungible(s[k]) {
                    label_byte(label_table(s.take(i as int)).0[s[k]])
                } else {
                    s[k]
                }),
            forall|x: u8|
                lookup@[x as int] == (if label_table(s.take(i as int)).0.contains_key(x) {
                    label_table(s.take(i as int)).0[x]
                } else {
                    0
                }),
            count == label_table(s.take(i as int)).1,
            count <= i,
        decreases n - i,
    {
        proof {
            lemma_table_prefix(s, i as int);
            lemma_table_mono(s, i as int, i + 1);
            lemma_table_below(s, i as int);
            lemma_table_below(s, i + 1);
        }
        let c = b.board[i];
        if fungible(c) {
            let value = lookup[c as usize];
            if value == 0 {
                count = count + 1;
                lookup.set(c as usize, count);
            }
            proof {
                lemma_label_bound(s.take(i + 1));
            }
            b.board.set(i, label_of(lookup[c as usize]));
        }
        proof {
            assert forall|k: int|
                0 <= k < i + 1 implies b.board@[k] == (if is_fungible(s[k]) {
                    label_byte(label_table(s.take(i + 1)).0[s[k]])
                } else {
                    s[k]
                }) by {
                if k < i && is_fungible(s[k]) {
                    assert(label_table(s.take(i as int)).0.contains_key(s[k]));
                }
            }
        }
        i = i + 1;
    }
    proof {
        assert(s.take(n as int) =~= s);
        assert(b.board@ =~= canon(s));
    }
}

/// The cells of `rows`, one row after another.
pub open spec fn flat_rows(rows: Seq<Vec<u8>>) -> Seq<u8> {
    rows.map_values(|r: Vec<u8>| r@).flatten()
}

/// All rows are as long as the first one.
pub open spec fn rectangular(rows: Seq<Vec<u8>>) -> bool {
    rows.len() >= 1 && forall|r: int| 0 <= r < rows.len() ==> #[trigger] rows[r]@.len() == rows[0]@.len()
}

proof fn lemma_flat_rows_len(rows: Seq<Vec<u8>>, i: int)
    requires
        rectangular(rows),
        0 <= i <= rows.len(),
    ensures
        flat_rows(rows.take(i)).len() == i * rows[0]@.len(),
    decreases i,
{
    if i == 0 {
        assert(rows.take(0).map_values(|r: Vec<u8>| r@) =~= Seq::<Seq<u8>>::empty());
    } else {
        lemma_flat_rows_len(rows, i - 1);
        let m = rows.take(i - 1).map_values(|r: Vec<u8>| r@);
        assert(rows.take(i).map_values(|r: Vec<u8>| r@) =~= m.push(rows[i - 1]@));
        m.lemma_flatten_push(rows[i - 1]@);
        assert(rows[i - 1]@.len() == rows[0]@.len());
        assert((i - 1) * rows[0]@.len() + rows[0]@.len() == i * rows[0]@.len()) by (nonlinear_arith);
    }
}

impl Board {
    /// Builds a board from its rows and brings it to canonical form.
    pub fn new(from: Vec<Vec<u8>>) -> (r: Board)
        requires
            rectangular(from@),
            from@.len() * from@[0]@.len() <= usize::MAX,
        ensures
            r.len_i == from@.len(),
            r.len_j == from@[0]@.len(),
            r.board@ == canon(flat_rows(from@)),
            r.board@.len() == r.len_i * r.len_j,
    {
        let len_i = from.len();
        let len_j = from[0].len();
        let mut board: Vec<u8> = Vec::new();
        let mut i: usize = 0;
        proof {
            assert(from@.take(0).map_values(|r: Vec<u8>| r@) =~= Seq::<Seq<u8>>::empty());
        }
        while i < len_i
            invariant
                i <= len_i,
                len_i == from@.len(),
                len_j == from@[0]@.len(),
                rectangular(from@),
                from@.len() * from@[0]@.len() <= usize::MAX,
                board@ == flat_rows(from@.take(i as int)),
            decreases len_i - i,
        {
            proof {
                lemma_flat_rows_len(from@, i as int);
                lemma_flat_rows_len(from@, i + 1);
                assert((i + 1) * len_j <= len_i * len_j) by (nonlinear_arith)
                    requires
                        i + 1 <= len_i,
                ;
                assert(i * len_j + len_j == (i + 1) * len_j) by (nonlinear_arith);
            }
            let row = &from[i];
            assert(row@.len() == len_j);
            let mut j: usize = 0;
            while j < row.len()
                invariant
                    j <= row@.len(),
                    board@ == flat_rows(from@.take(i as int)) + row@.take(j as int),
                    flat_rows(from@.take(i as int)).len() + row@.len() <= usize::MAX,
                decreases row@.len() - j,
            {
                board.push(row[j]);
                proof {
                    assert(row@.take(j + 1) =~= row@.take(j as int).push(row@[j as int]));
                }
                j = j + 1;
            }
            proof {
                let m = from@.take(i as int).map_values(|r: Vec<u8>| r@);
                assert(from@.take(i + 1).map_values(|r: Vec<u8>| r@) =~= m.push(row@));
                m.lemma_flatten_push(row@);
                assert(row@.take(j as int) =~= row@);
            }
            i = i + 1;
        }
        proof {
            assert(from@.take(len_i as int) =~= from@);
            lemma_flat_rows_len(from@, len_i as int);
        }
        let mut result = Board { len_i, len_j, board };
        normalize(&mut result);
        result
    }
}

/// Positions of the first two empty cells among the first `n` cells.
pub open spec fn first_spaces(s: Seq<u8>, n: int) -> Seq<int>
    decreases n,
{
    if n <= 0 {
        seq![]
    } else {
        let f = first_spaces(s, n - 1);
        if s[n - 1] == SPACE && f.len() < 2 {
            f.push(n - 1)
        } else {
            f
        }
    }
}

/// The cells hold at least two empty cells.
pub open spec fn has_two_spaces(s: Seq<u8>) -> bool {
    exists|a: int, b: int| 0 <= a < b < s.len() && s[a] == SPACE && s[b] == SPACE
}

pub(crate) proof fn lemma_first_spaces(s: Seq<u8>, n: int)
    requires
        0 <= n <= s.len(),
    ensures
        first_spaces(s, n).len() <= 2,
        forall|x: int|
            0 <= x < first_spaces(s, n).len() ==> 0 <= #[trigger] first_spaces(s, n)[x] < n
                && s[first_spaces(s, n)[x]] == SPACE,
        (exists|a: int| 0 <= a < n && s[a] == SPACE) ==> first_spaces(s, n).len() >= 1,
        (exists|a: int, b: int| 0 <= a < b < n && s[a] == SPACE && s[b] == SPACE)
            ==> first_spaces(s, n).len() == 2,
    decreases n,
{
    if n > 0 {
        lemma_first_spaces(s, n - 1);
        if exists|a: int, b: int| 0 <= a < b < n && s[a] == SPACE && s[b] == SPACE {
            let (a, b) = choose|a: int, b: int| 0 <= a < b < n && s[a] == SPACE && s[b] == SPACE;
            if b < n - 1 {
                assert(0 <= a < b < n - 1 && s[a] == SPACE && s[b] == SPACE);
            } else {
                assert(0 <= a < n - 1 && s[a] == SPACE);
            }
        }
        if exists|a: int| 0 <= a < n && s[a] == SPACE {
            let a = choose|a: int| 0 <= a < n && s[a] == SPACE;
            if a < n - 1 {
                assert(0 <= a < n - 1 && s[a] == SPACE);
            }
        }
    }
}

/// Flat indices of the first two empty cells of `cells` (fewer if it has
/// fewer).
pub fn empty_cells(cells: &Vec<u8>) -> (r: Vec<usize>)
    ensures
        r@.map_values(|x: usize| x as int) == first_spaces(cells@, cells@.len() as int),
{
    let mut r: Vec<usize> = Vec::new();
    let mut k: usize = 0;
    while k < cells.len()
        invariant
            k <= cells@.len(),
            r@.map_values(|x: usize| x as int) == first_spaces(cells@, k as int),
        decreases cells@.len() - k,
    {
        if cells[k] == SPACE && r.len() < 2 {
            r.push(k);
            proof {
                assert(r@.map_values(|x: usize| x as int) =~= first_spaces(cells@, k as int).push(
                    k as int,
                ));
            }
        }
        k = k + 1;
    }
    r
}

impl Board {
    /// Row and column of the first two empty cells, in row-major order.
    pub fn empties(&self) -> (r: [(usize, usize); 2])
        requires
            self.wf(),
            has_two_spaces(self.board@),
        ensures
            ({
                let e = first_spaces(self.board@, self.board@.len() as int);
                &&& e.len() == 2
                &&& r@[0].0 == e[0] / self.len_j as int
                &&& r@[0].1 == e[0] % self.len_j as int
                &&& r@[1].0 == e[1] / self.len_j as int
                &&& r@[1].1 == e[1] % self.len_j as int
            }),
    {
        proof {
            lemma_first_spaces(self.board@, self.board@.len() as int);
        }
        let e = empty_cells(&self.board);
        assert(e@[0] as int == first_spaces(self.board@, self.board@.len() as int)[0]);
        assert(e@[1] as int == first_spaces(self.board@, self.board@.len() as int)[1]);
        let w = self.len_j;
        [(e[0] / w, e[0] % w), (e[1] / w, e[1] % w)]
    }
}

/// The text with leading and trailing whitespace removed, as bytes.
pub uninterp spec fn trimmed_of(s: Seq<char>) -> Seq<u8>;

/// Relies on `str::trim` and `str::as_bytes`: the bytes of the text without
/// its leading and trailing whitespace, a function of the text alone.
#[verifier::external_body]
fn trimmed(s: &str) -> (r: Vec<u8>)
    ensures
        r@ == trimmed_of(s@),
{
    s.trim().as_bytes().to_vec()
}

pub const NEWLINE: u8 = 10;

pub const CARRIAGE_RETURN: u8 = 13;

/// A line without the carriage return that may end it.
pub open spec fn strip_cr(l: Seq<u8>) -> Seq<u8> {
    if l.len() > 0 && l.last() == CARRIAGE_RETURN {
        l.drop_last()
    } else {
        l
    }
}

/// The lines finished by the first `n` bytes of `t`, and the unfinished one.
pub open spec fn split_scan(t: Seq<u8>, n: int) -> (Seq<Seq<u8>>, Seq<u8>)
    decreases n,
{
    if n <= 0 {
        (seq![], seq![])
    } else {
        let (done, cur) = split_scan(t, n - 1);
        if t[n - 1] == NEWLINE {
            if strip_cr(cur).len() > 0 {
                (done.push(strip_cr(cur)), seq![])
            } else {
                (done, seq![])
            }
        } else {
            (done, cur.push(t[n - 1]))
        }
    }
}

/// The non-empty lines of `t`: split at each newline, a carriage return
/// before it dropped, and empty lines left out.
pub open spec fn lines_of(t: Seq<u8>) -> Seq<Seq<u8>> {
    let (done, cur) = split_scan(t, t.len() as int);
    if cur.len() == 0 {
        done
    } else {
        done.push(cur)
    }
}

/// At least one line, all lines equally long, and the cells fit in memory.
pub open spec fn shaped(ls: Seq<Seq<u8>>) -> bool {
    &&& ls.len() >= 1
    &&& forall|r: int| 0 <= r < ls.len() ==> #[trigger] ls[r].len() == ls[0].len()
    &&& ls.len() * ls[0].len() <= usize::MAX
}

/// Splits `t` into its lines.
pub fn split_lines(t: &Vec<u8>) -> (r: Vec<Vec<u8>>)
    ensures
        r@.map_values(|l: Vec<u8>| l@) == lines_of(t@),
{
    let mut done: Vec<Vec<u8>> = Vec::new();
    let mut cur: Vec<u8> = Vec::new();
    let mut k: usize = 0;
    while k < t.len()
        invariant
            k <= t@.len(),
            done@.map_values(|l: Vec<u8>| l@) == split_scan(t@, k as int).0,
            cur@ == split_scan(t@, k as int).1,
        decreases t@.len() - k,
    {
        if t[k] == NEWLINE {
            if cur.len() > 0 && cur[cur.len() - 1] == CARRIAGE_RETURN {
                cur.pop();
            }
            if cur.len() > 0 {
                let ghost old_done = done@;
                done.push(cur);
                cur = Vec::new();
                proof {
                    assert(done@.map_values(|l: Vec<u8>| l@) =~= old_done.map_values(|l: Vec<u8>| l@).push(
                        done@.last()@,
                    ));
                }
            }
            proof {
                assert(cur@ =~= Seq::<u8>::empty());
            }
        } else {
            cur.push(t[k]);
        }
        k = k + 1;
    }
    if cur.len() > 0 {
        let ghost old_done = done@;
        done.push(cur);
        proof {
            assert(done@.map_values(|l: Vec<u8>| l@) =~= old_done.map_values(|l: Vec<u8>| l@).push(
                done@.last()@,
            ));
        }
    }
    done
}

/// Whether the lines `ls` make a board: see `shaped`.
pub fn is_shaped(ls: &Vec<Vec<u8>>) -> (r: bool)
    ensures
        r == shaped(ls@.map_values(|l: Vec<u8>| l@)),
{
    let ghost m = ls@.map_values(|l: Vec<u8>| l@);
    if ls.len() == 0 {
        return false;
    }
    let w = ls[0].len();
    let mut r: usize = 0;
    while r < ls.len()
        invariant
            r <= ls@.len(),
            m == ls@.map_values(|l: Vec<u8>| l@),
            w == m[0].len(),
            forall|x: int| 0 <= x < r ==> #[trigger] m[x].len() == w,
        decreases ls@.len() - r,
    {
        if ls[r].len() != w {
            assert(m[r as int].len() != m[0].len());
            return false;
        }
        r = r + 1;
    }
    match ls.len().checked_mul(w) {
        Some(_) => true,
        None => false,
    }
}

/// Reads a board from lines of text already trimmed: `#` is a wall, a space
/// an empty cell, an uppercase letter a piece with an identity, any other byte
/// a fungible piece.
pub fn board_from_text(t: &Vec<u8>) -> (r: Board)
    requires
        shaped(lines_of(t@)),
    ensures
        r.len_i == lines_of(t@).len(),
        r.len_j == lines_of(t@)[0].len(),
        r.board@ == canon(lines_of(t@).flatten()),
        r.board@.len() == r.len_i * r.len_j,
{
    let ls = split_lines(t);
    proof {
        let m = ls@.map_values(|l: Vec<u8>| l@);
        assert forall|x: int| 0 <= x < ls@.len() implies #[trigger] ls@[x]@.len() == ls@[0]@.len() by {
            assert(m[x] == ls@[x]@);
        }
        assert(flat_rows(ls@) == m.flatten());
    }
    Board::new(ls)
}

/// Reads a board from text: leading and trailing whitespace is ignored and
/// the rest is read by `board_from_text`.
pub fn parse_board(b: &str) -> (r: Board)
    requires
        shaped(lines_of(trimmed_of(b@))),
    ensures
        r.len_i == lines_of(trimmed_of(b@)).len(),
        r.len_j == lines_of(trimmed_of(b@))[0].len(),
        r.board@ == canon(lines_of(trimmed_of(b@)).flatten()),
        r.board@.len() == r.len_i * r.len_j,
{
    let t = trimmed(b);
    board_from_text(&t)
}

/// Reads a board from text, or `None` where its non-empty lines do not make
/// one (no line at all, or lines of different lengths).
pub fn try_parse_board(b: &str) -> (r: Option<Board>)
    ensures
        r.is_some() <==> shaped(lines_of(trimmed_of(b@))),
        r matches Some(x) ==> {
            &&& x.len_i == lines_of(trimmed_of(b@)).len()
            &&& x.len_j == lines_of(trimmed_of(b@))[0].len()
            &&& x.board@ == canon(lines_of(trimmed_of(b@)).flatten())
            &&& x.board@.len() == x.len_i * x.len_j
        },
{
    let t = trimmed(b);
    let ls = split_lines(&t);
    if is_shaped(&ls) {
        Some(parse_board(b))
    } else {
        None
    }
}

/// How a cell is shown: walls, empty cells and uppercase pieces as
/// themselves, a fungible label `l` as the letter `l - 1 + 'a'` (wrapping).
pub open spec fn shown(c: u8) -> u8 {
    if is_fungible(c) {
        ((c + 96) % 256) as u8
    } else {
        c
    }
}

/// The first `r` rows of a board of width `w`, shown, with a newline
/// between rows.
pub open spec fn shown_rows(s: Seq<u8>, w: int, r: int) -> Seq<u8>
    decreases r,
{
    if r <= 0 {
        seq![]
    } else {
        shown_rows(s, w, r - 1) + (if r > 1 { seq![NEWLINE] } else { seq![] }) + s.subrange(
            (r - 1) * w,
            r * w,
        ).map_values(|c: u8| shown(c))
    }
}

/// Shows one cell.
pub fn show_cell(c: u8) -> (r: u8)
    ensures
        r == shown(c),
{
    if fungible(c) {
        ((c as u16 + 96) % 256) as u8
    } else {
        c
    }
}

impl Board {
    /// The board as text, one line per row.
    pub fn render(&self) -> (r: Vec<u8>)
        requires
            self.wf(),
        ensures
            r@ == shown_rows(self.board@, self.len_j as int, self.len_i as int),
    {
        let h = self.len_i;
        let w = self.len_j;
        let ghost s = self.board@;
        let n = self.board.len();
        let mut out: Vec<u8> = Vec::new();
        let mut r: usize = 0;
        let mut k: usize = 0;
        while r < h
            invariant
                self.wf(),
                n == s.len(),
                h == self.len_i,
                w == self.len_j,
                s == self.board@,
                r <= h,
                k == r * w,
                out@ == shown_rows(s, w as int, r as int),
            decreases h - r,
        {
            proof {
                assert((r + 1) * w <= h * w) by (nonlinear_arith)
                    requires
                        r + 1 <= h,
                ;
                assert((r + 1) * w == r * w + w) by (nonlinear_arith);
            }
            let ghost before = out@;
            if r > 0 {
                out.push(NEWLINE);
            }
            let ghost mid = out@;
            let mut c: usize = 0;
            while c < w
                invariant
                    self.wf(),
                    w == self.len_j,
                    s == self.board@,
                    c <= w,
                    n == s.len(),
                    k + w <= s.len(),
                    out@ == mid + s.subrange(k as int, k + c).map_values(|x: u8| shown(x)),
                decreases w - c,
            {
                out.push(show_cell(self.board[k + c]));
                proof {
                    assert(s.subrange(k as int, k + c + 1).map_values(|x: u8| shown(x)) =~= s.subrange(
                        k as int,
                        k + c,
                    ).map_values(|x: u8| shown(x)).push(shown(s[k + c])));
                }
                c = c + 1;
            }
            proof {
                assert(mid == before + (if r + 1 > 1 { seq![NEWLINE] } else { Seq::<u8>::empty() }));
                assert(out@ =~= shown_rows(s, w as int, r + 1));
            }
            k = k + w;
            r = r + 1;
        }
        out
    }
}

/// Canonical form keeps walls and empty cells where they are, and makes no
/// new ones.
pub proof fn lemma_canon_keeps_walls_and_spaces(t: Seq<u8>)
    ensures
        canon(t).len() == t.len(),
        forall|k: int|
            0 <= k < t.len() ==> (#[trigger] canon(t)[k] == WALL <==> t[k] == WALL) && (canon(t)[k]
                == SPACE <==> t[k] == SPACE),
{
    lemma_table_below(t, t.len() as int);
    lemma_label_bound(t);
    assert(t.take(t.len() as int) =~= t);
    assert forall|k: int| 0 <= k < t.len() implies (#[trigger] canon(t)[k] == WALL <==> t[k] == WALL) && (
    canon(t)[k] == SPACE <==> t[k] == SPACE) by {
        if is_fungible(t[k]) {
            assert(label_table(t).0.contains_key(t[k]));
            lemma_label_byte(label_table(t).0[t[k]], label_table(t).0[t[k]]);
        }
    }
}

/// `s` with each fungible symbol `v` replaced by `p[v]`.
pub open spec fn relabel(s: Seq<u8>, p: Map<u8, u8>) -> Seq<u8> {
    Seq::new(s.len(), |k: int| if is_fungible(s[k]) { p[s[k]] } else { s[k] })
}

/// `p` renames the fungible symbols of `s` to fungible symbols, and no two
/// of them to the same one.
pub open spec fn consistent_relabeling(s: Seq<u8>, p: Map<u8, u8>) -> bool {
    &&& forall|k: int| 0 <= k < s.len() && is_fungible(s[k]) ==> #[trigger] p.contains_key(s[k])
    &&& forall|k: int| 0 <= k < s.len() && is_fungible(s[k]) ==> is_fungible(#[trigger] p[s[k]])
    &&& forall|j: int, k: int|
        0 <= j < s.len() && 0 <= k < s.len() && is_fungible(s[j]) && is_fungible(s[k])
            && #[trigger] p[s[j]] == #[trigger] p[s[k]] ==> s[j] == s[k]
}

proof fn lemma_consistent_at(s: Seq<u8>, p: Map<u8, u8>, k: int)
    requires
        consistent_relabeling(s, p),
        0 <= k < s.len(),
        is_fungible(s[k]),
    ensures
        p.contains_key(s[k]),
        is_fungible(p[s[k]]),
{
}

proof fn lemma_relabel_tables(s: Seq<u8>, p: Map<u8, u8>, i: int)
    requires
        consistent_relabeling(s, p),
        0 <= i <= s.len(),
    ensures
        label_table(relabel(s, p).take(i)).1 == label_table(s.take(i)).1,
        forall|k: int|
            0 <= k < i && is_fungible(s[k]) ==> label_table(relabel(s, p).take(i)).0.contains_key(
                #[trigger] p[s[k]],
            ) && label_table(relabel(s, p).take(i)).0[p[s[k]]] == label_table(s.take(i)).0[s[k]],
        forall|k: int|
            0 <= k < s.len() && is_fungible(s[k]) ==> (label_table(
                relabel(s, p).take(i),
            ).0.contains_key(#[trigger] p[s[k]]) <==> label_table(s.take(i)).0.contains_key(s[k])),
    decreases i,
{
    let r = relabel(s, p);
    if i == 0 {
        assert(s.take(0) =~= Seq::<u8>::empty());
        assert(r.take(0) =~= Seq::<u8>::empty());
    } else {
        lemma_relabel_tables(s, p, i - 1);
        lemma_table_prefix(s, i - 1);
        lemma_table_prefix(r, i - 1);
        lemma_table_below(s, i - 1);
        lemma_table_below(r, i - 1);
        let (m1, c1) = label_table(s.take(i - 1));
        let (m2, c2) = label_table(r.take(i - 1));
        let c = s[i - 1];
        if is_fungible(c) {
            assert(r[i - 1] == p[c]);
            lemma_consistent_at(s, p, i - 1);
            assert(m1.contains_key(c) <==> m2.contains_key(p[c]));
            assert(c1 == c2);
            assert forall|k: int|
                0 <= k < i && is_fungible(s[k]) implies label_table(r.take(i)).0.contains_key(
                #[trigger] p[s[k]],
            ) && label_table(r.take(i)).0[p[s[k]]] == label_table(s.take(i)).0[s[k]] by {
                if k < i - 1 {
                    assert(m1.contains_key(s[k]));
                    if !m1.contains_key(c) {
                        assert(s[k] != c);
                        assert(p[s[k]] != p[c]);
                    }
                } else if m1.contains_key(c) {
                    let y = choose|y: int| 0 <= y < i - 1 && s[y] == c;
                    assert(p[s[y]] == p[c]);
                }
            }
            assert forall|k: int|
                0 <= k < s.len() && is_fungible(s[k]) implies (label_table(
                r.take(i),
            ).0.contains_key(#[trigger] p[s[k]]) <==> label_table(s.take(i)).0.contains_key(s[k])) by {
                if p[s[k]] == p[c] {
                    assert(s[k] == c);
                } else {
                    assert(s[k] != c);
                }
            }
        } else {
            assert(r[i - 1] == c);
        }
    }
}

/// Canonical form forgets how the fungible pieces were named: renaming them
/// consistently and then canonicalizing gives the same board as
/// canonicalizing without the renaming.
pub proof fn lemma_canon_relabel(s: Seq<u8>, p: Map<u8, u8>)
    requires
        consistent_relabeling(s, p),
    ensures
        canon(relabel(s, p)) == canon(s),
{
    let r = relabel(s, p);
    lemma_relabel_tables(s, p, s.len() as int);
    assert(s.take(s.len() as int) =~= s);
    assert(r.take(s.len() as int) =~= r);
    assert forall|k: int| 0 <= k < s.len() implies #[trigger] canon(r)[k] == canon(s)[k] by {
        if is_fungible(s[k]) {
            assert(p.contains_key(s[k]));
        }
    }
    assert(canon(r) =~= canon(s));
}

/// Canonicalizing a canonical board changes nothing.
pub proof fn lemma_canon_idempotent(s: Seq<u8>)
    ensures
        canon(canon(s)) == canon(s),
{
    let (m, c) = label_table(s);
    let p = m.map_values(|l: nat| label_byte(l));
    lemma_table_below(s, s.len() as int);
    lemma_label_bound(s);
    assert(s.take(s.len() as int) =~= s);
    assert forall|k: int| 0 <= k < s.len() && is_fungible(s[k]) implies #[trigger] p.contains_key(s[k]) by {
        assert(m.contains_key(s[k]));
    }
    assert forall|k: int| 0 <= k < s.len() && is_fungible(s[k]) implies is_fungible(#[trigger] p[s[k]]) by {
        assert(m.contains_key(s[k]));
        lemma_label_byte(m[s[k]], m[s[k]]);
    }
    assert forall|j: int, k: int|
        0 <= j < s.len() && 0 <= k < s.len() && is_fungible(s[j]) && is_fungible(s[k])
            && #[trigger] p[s[j]] == #[trigger] p[s[k]] implies s[j] == s[k] by {
        assert(m.contains_key(s[j]));
        assert(m.contains_key(s[k]));
        lemma_label_byte(m[s[j]], m[s[k]]);
    }
    assert(relabel(s, p) =~= canon(s));
    lemma_canon_relabel(s, p);
}

} // verus!
