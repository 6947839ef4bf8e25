use vstd::prelude::*;

verus! {

/// The two players.
#[derive(Clone, Copy, PartialEq, Eq, Structural, Debug, Hash)]
pub enum Color {
    White,
    Black,
}

impl Color {
    pub open spec fn spec_next(self) -> Color {
        match self {
            Color::White => Color::Black,
            Color::Black => Color::White,
        }
    }

    /// The other player.
    pub fn next(&self) -> (r: Color)
        ensures
            r == self.spec_next(),
    {
        match self {
            Color::White => Color::Black,
            Color::Black => Color::White,
        }
    }
}

/// The three kinds of piece.
#[derive(Clone, Copy, PartialEq, Eq, Structural, Debug, Hash)]
pub enum Piece {
    Flat,
    Wall,
    Cap,
}

/// The four directions a spread can travel in. `Up` raises the row, `Right` the column.
#[derive(Clone, Copy, PartialEq, Eq, Structural, Debug, Hash)]
pub enum Direction {
    Up,
    Down,
    Left,
    Right,
}

/// A square of the board, by 0-based row and column.
#[derive(Clone, Copy, PartialEq, Eq, Structural, Debug, Hash)]
pub struct Square {
    pub row: u8,
    pub column: u8,
}

impl Square {
    pub fn new(row: u8, column: u8) -> (r: Square)
        ensures
            r.row == row,
            r.column == column,
    {
        Square { row, column }
    }

    pub open spec fn on_board(self, n: int) -> bool {
        self.row < n && self.column < n
    }
}

/// The square `k` steps from `(row, column)` in direction `d`.
pub open spec fn step_by(row: int, column: int, d: Direction, k: int) -> (int, int) {
    match d {
        Direction::Up => (row + k, column),
        Direction::Down => (row - k, column),
        Direction::Left => (row, column - k),
        Direction::Right => (row, column + k),
    }
}

/// What a move is, as a mathematical value.
pub enum MoveModel {
    Place(Square, Piece),
    Spread(Square, Direction, Seq<u8>),
}

/// The kind of a move: a placement of one piece, or a spread with its drop counts.
#[derive(Clone, Debug, Hash)]
pub enum MoveKind {
    Place(Piece),
    Spread(Direction, Vec<u8>),
}

/// A move: the square it starts from and what it does there.
#[derive(Clone, Debug, Hash)]
pub struct Move {
    pub square: Square,
    pub kind: MoveKind,
}

impl View for Move {
    type V = MoveModel;

    open spec fn view(&self) -> MoveModel {
        match self.kind {
            MoveKind::Place(p) => MoveModel::Place(self.square, p),
            MoveKind::Spread(d, v) => MoveModel::Spread(self.square, d, v@),
        }
    }
}

pub fn drops_equal(a: &Vec<u8>, b: &Vec<u8>) -> (r: bool)
    ensures
        r == (a@ == b@),
{
    if a.len() != b.len() {
        return false;
    }
    let mut i: usize = 0;
    while i < a.len()
        invariant
            a.len() == b.len(),
            i <= a.len(),
            a@.subrange(0, i as int) == b@.subrange(0, i as int),
        decreases a.len() - i,
    {
        if a[i] != b[i] {
            assert(a@[i as int] != b@[i as int]);
            return false;
        }
        assert(a@.subrange(0, i + 1) == a@.subrange(0, i as int).push(a@[i as int]));
        assert(b@.subrange(0, i + 1) == b@.subrange(0, i as int).push(b@[i as int]));
        i = i + 1;
    }
    assert(a@ == a@.subrange(0, a.len() as int));
    assert(b@ == b@.subrange(0, b.len() as int));
    true
}

impl PartialEq for Move {
    fn eq(&self, o: &Move) -> (r: bool) {
        if self.square != o.square {
            return false;
        }
        match (&self.kind, &o.kind) {
            (MoveKind::Place(p), MoveKind::Place(q)) => *p == *q,
            (MoveKind::Spread(d, v), MoveKind::Spread(e, w)) => *d == *e && drops_equal(v, w),
            _ => false,
        }
    }
}

impl vstd::std_specs::cmp::PartialEqSpecImpl for Move {
    open spec fn obeys_eq_spec() -> bool {
        true
    }

    open spec fn eq_spec(&self, o: &Move) -> bool {
        self@ == o@
    }
}

impl Eq for Move {
}

/// The sum of a sequence of drop counts.
pub open spec fn drop_sum(s: Seq<u8>) -> int
    decreases s.len(),
{
    if s.len() == 0 {
        0
    } else {
        drop_sum(s.drop_last()) + s.last()
    }
}

} // verus!
