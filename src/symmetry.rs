use vstd::prelude::*;
use crate::types::{Direction, Square, Move, MoveKind, MoveModel};
use crate::game::{Game, GameView, CellView, Stack};

verus! {

/// A quarter turn clockwise of `(row, column)` on an `n` by `n` board.
pub open spec fn rotate(n: int, p: (int, int)) -> (int, int) {
    (n - 1 - p.1, p.0)
}

/// The reflection of `(row, column)` that swaps the first and last rows.
pub open spec fn mirror(n: int, p: (int, int)) -> (int, int) {
    (n - 1 - p.0, p.1)
}

pub open spec fn rotate_times(n: int, p: (int, int), t: nat) -> (int, int)
    decreases t,
{
    if t == 0 {
        p
    } else {
        rotate(n, rotate_times(n, p, (t - 1) as nat))
    }
}

/// Symmetry `k` of the eight: `k` quarter turns for `k < 4`; for `k >= 4`, a
/// reflection followed by `k - 4` quarter turns.
pub open spec fn sym(n: int, k: int, p: (int, int)) -> (int, int) {
    if k < 4 {
        rotate_times(n, p, k as nat)
    } else {
        rotate_times(n, mirror(n, p), (k - 4) as nat)
    }
}

/// The symmetry that undoes symmetry `k`.
pub open spec fn inverse(k: int) -> int {
    if k == 0 {
        0
    } else if k < 4 {
        4 - k
    } else {
        k
    }
}

pub open spec fn rotate_dir(d: Direction) -> Direction {
    match d {
        Direction::Up => Direction::Right,
        Direction::Down => Direction::Left,
        Direction::Left => Direction::Up,
        Direction::Right => Direction::Down,
    }
}

pub open spec fn mirror_dir(d: Direction) -> Direction {
    match d {
        Direction::Up => Direction::Down,
        Direction::Down => Direction::Up,
        other => other,
    }
}

pub open spec fn rotate_dir_times(d: Direction, t: nat) -> Direction
    decreases t,
{
    if t == 0 {
        d
    } else {
        rotate_dir(rotate_dir_times(d, (t - 1) as nat))
    }
}

pub open spec fn sym_dir(k: int, d: Direction) -> Direction {
    if k < 4 {
        rotate_dir_times(d, k as nat)
    } else {
        rotate_dir_times(mirror_dir(d), (k - 4) as nat)
    }
}

pub open spec fn sym_sq(n: int, k: int, sq: Square) -> Square {
    let p = sym(n, k, (sq.row as int, sq.column as int));
    Square { row: p.0 as u8, column: p.1 as u8 }
}

/// Move `m` under symmetry `k` of an `n` by `n` board.
pub open spec fn sym_move(n: int, k: int, m: MoveModel) -> MoveModel {
    match m {
        MoveModel::Place(sq, p) => MoveModel::Place(sym_sq(n, k, sq), p),
        MoveModel::Spread(sq, d, drops) => MoveModel::Spread(sym_sq(n, k, sq), sym_dir(k, d), drops),
    }
}

/// The board under symmetry `k`: what stood on square `q` now stands on `sym(k, q)`.
pub open spec fn sym_cells(cells: Seq<CellView>, n: int, k: int) -> Seq<CellView> {
    Seq::new(
        (n * n) as nat,
        |i: int|
            {
                let q = sym(n, inverse(k), (i / n, i % n));
                cells[q.0 * n + q.1]
            },
    )
}

pub open spec fn sym_game(v: GameView, k: int) -> GameView {
    GameView { cells: sym_cells(v.cells, v.size, k), ..v }
}

fn rotate_exec(n: u8, r: u8, c: u8) -> (res: (u8, u8))
    requires
        r < n,
        c < n,
    ensures
        res.0 as int == rotate(n as int, (r as int, c as int)).0,
        res.1 as int == rotate(n as int, (r as int, c as int)).1,
        res.0 < n,
        res.1 < n,
{
    (n - 1 - c, r)
}

/// Symmetry `k` applied to square `(r, c)` of an `n` by `n` board.
fn sym_exec(n: u8, k: u8, r: u8, c: u8) -> (res: (u8, u8))
    requires
        r < n,
        c < n,
        k < 8,
    ensures
        res.0 as int == sym(n as int, k as int, (r as int, c as int)).0,
        res.1 as int == sym(n as int, k as int, (r as int, c as int)).1,
        res.0 < n,
        res.1 < n,
{
    let (mut a, mut b) = if k < 4 { (r, c) } else { (n - 1 - r, c) };
    let turns = if k < 4 { k } else { k - 4 };
    let mut t: u8 = 0;
    while t < turns
        invariant
            t <= turns,
            a < n,
            b < n,
            turns == (if k < 4 { k } else { (k - 4) as u8 }),
            (a as int, b as int) == rotate_times(n as int, (if k < 4 { (r as int, c as int) } else { mirror(n as int, (r as int, c as int)) }), t as nat),
        decreases turns - t,
    {
        let p = rotate_exec(n, a, b);
        a = p.0;
        b = p.1;
        t = t + 1;
    }
    (a, b)
}

fn rotate_dir_exec(d: Direction) -> (r: Direction)
    ensures
        r == rotate_dir(d),
{
    match d {
        Direction::Up => Direction::Right,
        Direction::Down => Direction::Left,
        Direction::Left => Direction::Up,
        Direction::Right => Direction::Down,
    }
}

fn sym_dir_exec(k: u8, d: Direction) -> (r: Direction)
    requires
        k < 8,
    ensures
        r == sym_dir(k as int, d),
{
    let mut e = if k < 4 {
        d
    } else {
        match d {
            Direction::Up => Direction::Down,
            Direction::Down => Direction::Up,
            other => other,
        }
    };
    let turns = if k < 4 { k } else { k - 4 };
    let mut t: u8 = 0;
    while t < turns
        invariant
            t <= turns,
            turns == (if k < 4 { k } else { (k - 4) as u8 }),
            e == rotate_dir_times(if k < 4 { d } else { mirror_dir(d) }, t as nat),
        decreases turns - t,
    {
        e = rotate_dir_exec(e);
        t = t + 1;
    }
    e
}

fn copy_drops(v: &Vec<u8>) -> (r: Vec<u8>)
    ensures
        r@ == v@,
{
    let mut out: Vec<u8> = Vec::new();
    let mut i: usize = 0;
    while i < v.len()
        invariant
            i <= v.len(),
            out@ == v@.subrange(0, i as int),
        decreases v.len() - i,
    {
        out.push(v[i]);
        i = i + 1;
    }
    assert(v@.subrange(0, v.len() as int) == v@);
    out
}

impl Move {
    /// The eight images of this move under the symmetries of a `size` by `size` board,
    /// or `None` for a size outside 3 to 8 or a square off that board.
    pub fn symmetries(&self, size: usize) -> (r: Option<Vec<Move>>)
        ensures
            r is Some <==> (3 <= size <= 8 && self.square.on_board(size as int)),
            r matches Some(v) ==> v.len() == 8 && forall|k: int| 0 <= k < 8 ==> (#[trigger] v@[k])@ == sym_move(size as int, k, self@),
    {
        if size < 3 || size > 8 || self.square.row as usize >= size || self.square.column as usize >= size {
            return None;
        }
        let n = size as u8;
        let mut out: Vec<Move> = Vec::new();
        let mut k: u8 = 0;
        while k < 8
            invariant
                k <= 8,
                n as int == size,
                self.square.on_board(n as int),
                out.len() == k,
                forall|j: int| 0 <= j < k ==> (#[trigger] out@[j])@ == sym_move(size as int, j, self@),
            decreases 8 - k,
        {
            let (r, c) = sym_exec(n, k, self.square.row, self.square.column);
            let sq = Square { row: r, column: c };
            let kind = match &self.kind {
                MoveKind::Place(p) => MoveKind::Place(*p),
                MoveKind::Spread(d, drops) => MoveKind::Spread(sym_dir_exec(k, *d), copy_drops(drops)),
            };
            out.push(Move { square: sq, kind });
            k = k + 1;
        }
        Some(out)
    }
}

impl Game {
    /// This game under symmetry `k`.
    pub fn symmetry(&self, k: u8) -> (r: Game)
        requires
            self@.wf(),
            k < 8,
        ensures
            r@ == sym_game(self@, k as int),
            r@.wf(),
    {
        let n = self.size;
        proof {
            self@.lemma_small();
        }
        let nn = n * n;
        let inv: u8 = if k == 0 { 0 } else if k < 4 { 4 - k } else { k };
        let mut board: Vec<Stack> = Vec::new();
        let mut i: usize = 0;
        while i < nn
            invariant
                self@.wf(),
                n == self.size,
                nn == n * n,
                nn <= 64,
                inv as int == inverse(k as int),
                inv < 8,
                i <= nn,
                board.len() == i,
                forall|j: int| 0 <= j < i ==> (#[trigger] board@[j])@ == sym_cells(self@.cells, n as int, k as int)[j],
                forall|j: int| 0 <= j < i ==> crate::game::cell_wf((#[trigger] board@[j])@),
            decreases nn - i,
        {
            assert(i / n < n) by (nonlinear_arith)
                requires
                    i < n * n,
                    n > 0,
            ;
            let (r, c) = sym_exec(n as u8, inv, (i / n) as u8, (i % n) as u8);
            proof {
                crate::rules::lemma_index(n as int, r as int, c as int);
            }
            let src = r as usize * n + c as usize;
            assert(crate::game::cell_wf(self@.cells[src as int]));
            board.push(self.board[src].duplicate());
            i = i + 1;
        }
        let g = Game { board, ..*self };
        assert(g@.cells =~= sym_cells(self@.cells, n as int, k as int));
        g
    }

    /// The eight images of this game under the symmetries of the board.
    pub fn symmetries(&self) -> (r: Vec<Game>)
        requires
            self@.wf(),
        ensures
            r.len() == 8,
            forall|k: int| 0 <= k < 8 ==> (#[trigger] r@[k])@ == sym_game(self@, k),
    {
        let mut out: Vec<Game> = Vec::new();
        let mut k: u8 = 0;
        while k < 8
            invariant
                self@.wf(),
                k <= 8,
                out.len() == k,
                forall|j: int| 0 <= j < k ==> (#[trigger] out@[j])@ == sym_game(self@, j),
            decreases 8 - k,
        {
            out.push(self.symmetry(k));
            k = k + 1;
        }
        out
    }
}

} // verus!
