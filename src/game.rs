use vstd::prelude::*;
use crate::types::{Color, Piece};

verus! {

/// The pieces a player still has in hand.
#[derive(Clone, Copy, PartialEq, Eq, Structural, Debug, Hash)]
pub struct Reserves {
    pub stones: u8,
    pub caps: u8,
}

/// A square's contents: the colours from bottom to top, and the kind of the top piece.
/// An empty square has no colours and a flat as its (unused) kind.
#[derive(Clone, Debug, Hash)]
pub struct Stack {
    pub piece: Piece,
    pub colors: Vec<Color>,
}

/// A square's contents as a value.
pub type CellView = (Piece, Seq<Color>);

impl View for Stack {
    type V = CellView;

    open spec fn view(&self) -> CellView {
        (self.piece, self.colors@)
    }
}

/// Why a move could not be played.
#[derive(Clone, Copy, PartialEq, Eq, Structural, Debug, Hash)]
pub enum PlayError {
    GameOver,
    OutOfBounds,
    AlreadyOccupied,
    OpeningNonFlat,
    NoCapstone,
    NoStones,
    EmptySquare,
    StackNotOwned,
    InvalidPattern,
    CarryLimit,
    StackSize,
    SpreadOutOfBounds,
    StackOnWall,
    StackOnCap,
}

/// How a game ended.
#[derive(Clone, Copy, PartialEq, Eq, Structural, Debug, Hash)]
pub enum Reason {
    Road,
    ReservesDepleted,
    BoardFill,
}

/// The state of a game: still going, won, or drawn.
#[derive(Clone, Copy, PartialEq, Eq, Structural, Debug, Hash)]
pub enum GameResult {
    Ongoing,
    Winner(Color, Reason),
    Draw(Reason),
}

impl GameResult {
    /// The winner, if there is one.
    pub fn color(&self) -> (r: Option<Color>)
        ensures
            r == (match *self {
                GameResult::Winner(c, _) => Some(c),
                _ => None,
            }),
    {
        match self {
            GameResult::Winner(c, _) => Some(*c),
            _ => None,
        }
    }
}

/// A game of Tak in progress.
#[derive(Clone, Debug, Hash)]
pub struct Game {
    pub size: usize,
    pub half_komi: i8,
    /// The squares, row by row from row 0; a square's index is `row * size + column`.
    pub board: Vec<Stack>,
    pub to_move: Color,
    pub white_reserves: Reserves,
    pub black_reserves: Reserves,
    pub ply: u16,
    pub reversible_plies: u16,
}

/// A game as a value.
pub struct GameView {
    pub size: int,
    pub half_komi: int,
    pub cells: Seq<CellView>,
    pub to_move: Color,
    pub white: Reserves,
    pub black: Reserves,
    pub ply: int,
    pub reversible_plies: int,
}

impl View for Game {
    type V = GameView;

    open spec fn view(&self) -> GameView {
        GameView {
            size: self.size as int,
            half_komi: self.half_komi as int,
            cells: self.board@.map_values(|s: Stack| s@),
            to_move: self.to_move,
            white: self.white_reserves,
            black: self.black_reserves,
            ply: self.ply as int,
            reversible_plies: self.reversible_plies as int,
        }
    }
}

/// Stones and capstones each player starts with on an `n` by `n` board.
pub open spec fn initial_reserves(n: int) -> Reserves {
    if n == 3 {
        Reserves { stones: 10, caps: 0 }
    } else if n == 4 {
        Reserves { stones: 15, caps: 0 }
    } else if n == 5 {
        Reserves { stones: 21, caps: 1 }
    } else if n == 6 {
        Reserves { stones: 30, caps: 1 }
    } else if n == 7 {
        Reserves { stones: 40, caps: 2 }
    } else {
        Reserves { stones: 50, caps: 2 }
    }
}

/// Board sizes and half-komi values that a game can be made with.
pub open spec fn supported(n: int, half_komi: int) -> bool {
    3 <= n <= 8 && (half_komi == 0 || half_komi == 4)
}

pub open spec fn cell_wf(c: CellView) -> bool {
    c.1.len() == 0 ==> c.0 == Piece::Flat
}

impl GameView {
    pub open spec fn wf(self) -> bool {
        &&& 3 <= self.size <= 8
        &&& self.cells.len() == self.size * self.size
        &&& forall|i: int| 0 <= i < self.cells.len() ==> cell_wf(#[trigger] self.cells[i])
    }

    pub proof fn lemma_small(self)
        requires
            self.wf(),
        ensures
            self.cells.len() <= 64,
            self.size * self.size <= 64,
    {
        assert(self.size * self.size <= 64) by (nonlinear_arith)
            requires
                0 <= self.size <= 8,
        ;
    }

    pub open spec fn index(self, row: int, column: int) -> int {
        row * self.size + column
    }

    pub open spec fn in_bounds(self, row: int, column: int) -> bool {
        0 <= row < self.size && 0 <= column < self.size
    }

    /// The colour whose piece is placed this ply: the opponent's on the first two plies.
    pub open spec fn placer(self) -> Color {
        if self.ply < 2 {
            self.to_move.spec_next()
        } else {
            self.to_move
        }
    }

    pub open spec fn reserves(self, c: Color) -> Reserves {
        match c {
            Color::White => self.white,
            Color::Black => self.black,
        }
    }

    pub open spec fn with_reserves(self, c: Color, r: Reserves) -> GameView {
        match c {
            Color::White => GameView { white: r, ..self },
            Color::Black => GameView { black: r, ..self },
        }
    }

    /// The same position with the other player to move and one more ply played.
    pub open spec fn next_ply(self, reversible_plies: int) -> GameView {
        GameView {
            to_move: self.to_move.spec_next(),
            ply: self.ply + 1,
            reversible_plies: reversible_plies,
            ..self
        }
    }
}

/// Whether a square counts towards `c`'s roads: its top is a flat or capstone of colour `c`.
pub open spec fn is_road(c: CellView, color: Color) -> bool {
    c.1.len() > 0 && c.1.last() == color && c.0 != Piece::Wall
}

/// The road squares of `color` that connect to the starting edge in at most `k` steps.
/// The starting edge is column 0 for `horizontal`, row 0 otherwise.
pub open spec fn reach(cells: Seq<CellView>, n: int, color: Color, horizontal: bool, k: nat) -> Seq<bool>
    decreases k,
{
    if k == 0 {
        Seq::new(
            (n * n) as nat,
            |i: int| is_road(cells[i], color) && (if horizontal { i % n == 0 } else { i < n }),
        )
    } else {
        let prev = reach(cells, n, color, horizontal, (k - 1) as nat);
        Seq::new((n * n) as nat, |i: int| prev[i] || (is_road(cells[i], color) && touches(prev, n, i)))
    }
}

/// Whether a square next to square `i` is marked in `prev`.
pub open spec fn touches(prev: Seq<bool>, n: int, i: int) -> bool {
    ||| (i % n > 0 && prev[i - 1])
    ||| (i % n < n - 1 && i + 1 < n * n && prev[i + 1])
    ||| (i >= n && prev[i - n])
    ||| (i + n < n * n && prev[i + n])
}

/// Whether `color` joins the starting edge to the opposite one. A path visits at most
/// `n * n` squares, so `n * n` steps reach every square joined to the edge.
pub open spec fn road_in(cells: Seq<CellView>, n: int, color: Color, horizontal: bool) -> bool {
    exists|i: int|
        0 <= i < n * n && #[trigger] reach(cells, n, color, horizontal, (n * n) as nat)[i] && (if horizontal {
            i % n == n - 1
        } else {
            i + n >= n * n
        })
}

pub open spec fn has_road(cells: Seq<CellView>, n: int, color: Color) -> bool {
    road_in(cells, n, color, true) || road_in(cells, n, color, false)
}

/// The squares whose top is a flat or a capstone of `color`.
pub open spec fn flat_count(cells: Seq<CellView>, color: Color) -> int
    decreases cells.len(),
{
    if cells.len() == 0 {
        0
    } else {
        flat_count(cells.drop_last(), color) + if is_road(cells.last(), color) { 1int } else { 0 }
    }
}

pub open spec fn board_full(cells: Seq<CellView>) -> bool {
    forall|i: int| 0 <= i < cells.len() ==> (#[trigger] cells[i]).1.len() > 0
}

pub open spec fn depleted(r: Reserves) -> bool {
    r.stones == 0 && r.caps == 0
}

/// The result by flat count: Black's count gains half of `half_komi`.
pub open spec fn flat_result(white: int, black: int, half_komi: int, reason: Reason) -> GameResult {
    if 2 * white > 2 * black + half_komi {
        GameResult::Winner(Color::White, reason)
    } else if 2 * white < 2 * black + half_komi {
        GameResult::Winner(Color::Black, reason)
    } else {
        GameResult::Draw(reason)
    }
}

/// The result of a position. A road wins, and the player who just moved wins when both
/// have one. Otherwise a full board, or a player to move with nothing left to place,
/// ends the game by flat count.
pub open spec fn result_of(v: GameView) -> GameResult {
    let last = v.to_move.spec_next();
    if has_road(v.cells, v.size, last) {
        GameResult::Winner(last, Reason::Road)
    } else if has_road(v.cells, v.size, v.to_move) {
        GameResult::Winner(v.to_move, Reason::Road)
    } else if depleted(v.reserves(v.to_move)) {
        flat_result(flat_count(v.cells, Color::White), flat_count(v.cells, Color::Black), v.half_komi, Reason::ReservesDepleted)
    } else if board_full(v.cells) {
        flat_result(flat_count(v.cells, Color::White), flat_count(v.cells, Color::Black), v.half_komi, Reason::BoardFill)
    } else {
        GameResult::Ongoing
    }
}

} // verus!

verus! {

impl Game {
    /// Whether square `i` counts towards `color`'s roads.
    fn road_at(&self, i: usize, color: Color) -> (r: bool)
        requires
            i < self.board.len(),
        ensures
            r == is_road(self@.cells[i as int], color),
    {
        let s = &self.board[i];
        let len = s.colors.len();
        len > 0 && s.colors[len - 1] == color && s.piece != Piece::Wall
    }

    /// The squares of `color` joined to the starting edge, after `n * n` steps.
    fn reach_all(&self, color: Color, horizontal: bool) -> (r: Vec<bool>)
        requires
            self@.wf(),
        ensures
            r@ == reach(self@.cells, self@.size, color, horizontal, (self@.size * self@.size) as nat),
    {
        let n = self.size;
        assert(n * n <= 64) by (nonlinear_arith)
            requires
                n <= 8,
        ;
        let nn = n * n;
        let ghost cells = self@.cells;
        let mut cur: Vec<bool> = Vec::new();
        let mut i: usize = 0;
        while i < nn
            invariant
                self@.wf(),
                n == self.size,
                nn == n * n,
                cells == self@.cells,
                i <= nn,
                cur.len() == i,
                forall|j: int| 0 <= j < i ==> cur@[j] == reach(cells, n as int, color, horizontal, 0)[j],
            decreases nn - i,
        {
            let edge = if horizontal { i % n == 0 } else { i < n };
            let v = self.road_at(i, color) && edge;
            cur.push(v);
            i = i + 1;
        }
        assert(cur@ =~= reach(cells, n as int, color, horizontal, 0));
        let mut k: usize = 0;
        while k < nn
            invariant
                self@.wf(),
                n == self.size,
                nn == n * n,
                cells == self@.cells,
                nn <= 64,
                k <= nn,
                cur@ == reach(cells, n as int, color, horizontal, k as nat),
            decreases nn - k,
        {
            let mut next: Vec<bool> = Vec::new();
            let mut i: usize = 0;
            while i < nn
                invariant
                    self@.wf(),
                    n == self.size,
                    nn == n * n,
                    cells == self@.cells,
                    nn <= 64,
                    i <= nn,
                    cur@ == reach(cells, n as int, color, horizontal, k as nat),
                    cur.len() == nn,
                    next.len() == i,
                    forall|j: int| 0 <= j < i ==> next@[j] == reach(cells, n as int, color, horizontal, (k + 1) as nat)[j],
                decreases nn - i,
            {
                assert(i % n > 0 ==> i > 0) by (nonlinear_arith)
                    requires
                        n > 0,
                ;
                let near = (i % n > 0 && cur[i - 1])
                    || (i % n < n - 1 && i + 1 < nn && cur[i + 1])
                    || (i >= n && cur[i - n])
                    || (i + n < nn && cur[i + n]);
                let v = cur[i] || (self.road_at(i, color) && near);
                next.push(v);
                i = i + 1;
            }
            assert(next@ =~= reach(cells, n as int, color, horizontal, (k + 1) as nat));
            cur = next;
            k = k + 1;
        }
        cur
    }

    fn road_for(&self, color: Color) -> (r: bool)
        requires
            self@.wf(),
        ensures
            r == has_road(self@.cells, self@.size, color),
    {
        let n = self.size;
        assert(n * n <= 64) by (nonlinear_arith)
            requires
                n <= 8,
        ;
        let nn = n * n;
        let h = self.reach_all(color, true);
        let mut i: usize = 0;
        while i < nn
            invariant
                n == self.size,
                3 <= n <= 8,
                nn == n * n,
                h@ == reach(self@.cells, n as int, color, true, (n * n) as nat),
                h.len() == nn,
                i <= nn,
                forall|j: int| 0 <= j < i ==> !(h@[j] && j % (n as int) == n - 1),
            decreases nn - i,
        {
            if h[i] && i % n == n - 1 {
                assert(reach(self@.cells, n as int, color, true, (n * n) as nat)[i as int]);
                return true;
            }
            i = i + 1;
        }
        let w = self.reach_all(color, false);
        let mut i: usize = 0;
        while i < nn
            invariant
                n == self.size,
                3 <= n <= 8,
                nn == n * n,
                w@ == reach(self@.cells, n as int, color, false, (n * n) as nat),
                w.len() == nn,
                nn <= 64,
                i <= nn,
                forall|j: int| 0 <= j < i ==> !(w@[j] && j + n >= n * n),
            decreases nn - i,
        {
            if w[i] && i + n >= nn {
                assert(reach(self@.cells, n as int, color, false, (n * n) as nat)[i as int]);
                return true;
            }
            i = i + 1;
        }
        false
    }

    fn flats_of(&self, color: Color) -> (r: u32)
        requires
            self@.wf(),
        ensures
            r == flat_count(self@.cells, color),
    {
        proof {
            self@.lemma_small();
        }
        let mut count: u32 = 0;
        let mut i: usize = 0;
        while i < self.board.len()
            invariant
                self@.wf(),
                i <= self.board.len(),
                count == flat_count(self@.cells.subrange(0, i as int), color),
                count <= i,
                self.board.len() <= 64,
            decreases self.board.len() - i,
        {
            assert(self@.cells.subrange(0, i + 1).drop_last() == self@.cells.subrange(0, i as int));
            if self.road_at(i, color) {
                count = count + 1;
            }
            i = i + 1;
        }
        assert(self@.cells.subrange(0, self.board.len() as int) == self@.cells);
        count
    }

    fn is_full(&self) -> (r: bool)
        ensures
            r == board_full(self@.cells),
    {
        let mut i: usize = 0;
        while i < self.board.len()
            invariant
                i <= self.board.len(),
                forall|j: int| 0 <= j < i ==> (#[trigger] self@.cells[j]).1.len() > 0,
            decreases self.board.len() - i,
        {
            if self.board[i].colors.len() == 0 {
                assert(self@.cells[i as int].1.len() == 0);
                return false;
            }
            i = i + 1;
        }
        true
    }

    pub fn reserves_of(&self, c: Color) -> (r: Reserves)
        ensures
            r == self@.reserves(c),
    {
        match c {
            Color::White => self.white_reserves,
            Color::Black => self.black_reserves,
        }
    }

    /// Whether the game has ended, and how.
    pub fn result(&self) -> (r: GameResult)
        requires
            self@.wf(),
        ensures
            r == result_of(self@),
    {
        let last = self.to_move.next();
        if self.road_for(last) {
            return GameResult::Winner(last, Reason::Road);
        }
        if self.road_for(self.to_move) {
            return GameResult::Winner(self.to_move, Reason::Road);
        }
        let own = self.reserves_of(self.to_move);
        let reason = if own.stones == 0 && own.caps == 0 {
            Reason::ReservesDepleted
        } else if self.is_full() {
            Reason::BoardFill
        } else {
            return GameResult::Ongoing;
        };
        let white = self.flats_of(Color::White) as i64;
        let black = self.flats_of(Color::Black) as i64;
        let hk = self.half_komi as i64;
        if 2 * white > 2 * black + hk {
            GameResult::Winner(Color::White, reason)
        } else if 2 * white < 2 * black + hk {
            GameResult::Winner(Color::Black, reason)
        } else {
            GameResult::Draw(reason)
        }
    }
}

} // verus!

verus! {

/// A square with nothing on it.
pub open spec fn empty_cell() -> CellView {
    (Piece::Flat, Seq::empty())
}

/// The start of a game on an `n` by `n` board: nothing on it, White to move, full reserves.
pub open spec fn start_view(n: int, half_komi: int) -> GameView {
    GameView {
        size: n,
        half_komi,
        cells: Seq::new((n * n) as nat, |i: int| empty_cell()),
        to_move: Color::White,
        white: initial_reserves(n),
        black: initial_reserves(n),
        ply: 0,
        reversible_plies: 0,
    }
}

/// The pieces each player starts with on an `n` by `n` board.
pub fn starting_reserves(n: usize) -> (r: Reserves)
    requires
        3 <= n <= 8,
    ensures
        r == initial_reserves(n as int),
{
    if n == 3 {
        Reserves { stones: 10, caps: 0 }
    } else if n == 4 {
        Reserves { stones: 15, caps: 0 }
    } else if n == 5 {
        Reserves { stones: 21, caps: 1 }
    } else if n == 6 {
        Reserves { stones: 30, caps: 1 }
    } else if n == 7 {
        Reserves { stones: 40, caps: 2 }
    } else {
        Reserves { stones: 50, caps: 2 }
    }
}

fn copy_colors(v: &Vec<Color>) -> (r: Vec<Color>)
    ensures
        r@ == v@,
{
    let mut out: Vec<Color> = Vec::new();
    let mut i: usize = 0;
    while i < v.len()
        invariant
            i <= v.len(),
            out@ == v@.subrange(0, i as int),
        decreases v.len() - i,
    {
        out.push(v[i]);
        i = i + 1;
    }
    assert(v@.subrange(0, v.len() as int) == v@);
    out
}

impl Stack {
    /// An independent copy of this stack.
    pub fn duplicate(&self) -> (r: Stack)
        ensures
            r@ == self@,
    {
        Stack { piece: self.piece, colors: copy_colors(&self.colors) }
    }
}

impl Game {
    /// A new game of the given size and half-komi; `None` for a size outside 3 to 8
    /// or a half-komi other than 0 or 4.
    pub fn new(size: usize, half_komi: i8) -> (r: Option<Game>)
        ensures
            r is Some <==> supported(size as int, half_komi as int),
            r matches Some(g) ==> g@ == start_view(size as int, half_komi as int) && crate::laws::consistent(g@),
    {
        if size < 3 || size > 8 || (half_komi != 0 && half_komi != 4) {
            return None;
        }
        assert(size * size <= 64) by (nonlinear_arith)
            requires
                size <= 8,
        ;
        let nn = size * size;
        let mut board: Vec<Stack> = Vec::new();
        let mut i: usize = 0;
        while i < nn
            invariant
                i <= nn,
                board.len() == i,
                forall|j: int| 0 <= j < i ==> (#[trigger] board@[j])@ == empty_cell(),
            decreases nn - i,
        {
            board.push(Stack { piece: Piece::Flat, colors: Vec::new() });
            i = i + 1;
        }
        let r = starting_reserves(size);
        let g = Game {
            size,
            half_komi,
            board,
            to_move: Color::White,
            white_reserves: r,
            black_reserves: r,
            ply: 0,
            reversible_plies: 0,
        };
        assert(g@.cells =~= start_view(size as int, half_komi as int).cells);
        proof {
            crate::laws::lemma_start_conserved(size as int, half_komi as int);
        }
        Some(g)
    }

    /// An independent copy of this game.
    pub fn duplicate(&self) -> (r: Game)
        ensures
            r@ == self@,
    {
        let mut board: Vec<Stack> = Vec::new();
        let mut i: usize = 0;
        while i < self.board.len()
            invariant
                i <= self.board.len(),
                board.len() == i,
                forall|j: int| 0 <= j < i ==> (#[trigger] board@[j])@ == self.board@[j]@,
            decreases self.board.len() - i,
        {
            board.push(self.board[i].duplicate());
            i = i + 1;
        }
        let g = Game { board, ..*self };
        assert(g@.cells =~= self@.cells);
        g
    }
}

} // verus!

verus! {

/// How many entries of `s` are `c`.
pub open spec fn color_count(s: Seq<Color>, c: Color) -> int
    decreases s.len(),
{
    if s.len() == 0 {
        0
    } else {
        color_count(s.drop_last(), c) + if s.last() == c { 1int } else { 0 }
    }
}

/// Whether a square holds a capstone of colour `c` on top.
pub open spec fn is_cap_of(cell: CellView, c: Color) -> bool {
    cell.1.len() > 0 && cell.0 == Piece::Cap && cell.1.last() == c
}

/// The pieces of colour `c` on the board, capstones included.
pub open spec fn pieces_on_board(cells: Seq<CellView>, c: Color) -> int
    decreases cells.len(),
{
    if cells.len() == 0 {
        0
    } else {
        pieces_on_board(cells.drop_last(), c) + color_count(cells.last().1, c)
    }
}

/// The capstones of colour `c` on the board.
pub open spec fn caps_on_board(cells: Seq<CellView>, c: Color) -> int
    decreases cells.len(),
{
    if cells.len() == 0 {
        0
    } else {
        caps_on_board(cells.drop_last(), c) + if is_cap_of(cells.last(), c) { 1int } else { 0 }
    }
}

/// Every piece of colour `c` is either in hand or on the board.
pub open spec fn conserved_for(v: GameView, c: Color) -> bool {
    &&& v.reserves(c).stones + pieces_on_board(v.cells, c) - caps_on_board(v.cells, c) == initial_reserves(v.size).stones
    &&& v.reserves(c).caps + caps_on_board(v.cells, c) == initial_reserves(v.size).caps
}

pub open spec fn conserved(v: GameView) -> bool {
    conserved_for(v, Color::White) && conserved_for(v, Color::Black)
}

} // verus!

verus! {

fn colors_equal(a: &Vec<Color>, b: &Vec<Color>) -> (r: bool)
    ensures
        r == (a@ == b@),
{
    if a.len() != b.len() {
        return false;
    }
    let mut i: usize = 0;
    while i < a.len()
        invariant
            a.len() == b.len(),
            i <= a.len(),
            a@.subrange(0, i as int) == b@.subrange(0, i as int),
        decreases a.len() - i,
    {
        if a[i] != b[i] {
            assert(a@[i as int] != b@[i as int]);
            return false;
        }
        assert(a@.subrange(0, i + 1) == a@.subrange(0, i as int).push(a@[i as int]));
        assert(b@.subrange(0, i + 1) == b@.subrange(0, i as int).push(b@[i as int]));
        i = i + 1;
    }
    assert(a@ == a@.subrange(0, a.len() as int));
    assert(b@ == b@.subrange(0, b.len() as int));
    true
}

impl PartialEq for Stack {
    fn eq(&self, o: &Stack) -> (r: bool) {
        self.piece == o.piece && colors_equal(&self.colors, &o.colors)
    }
}

impl vstd::std_specs::cmp::PartialEqSpecImpl for Stack {
    open spec fn obeys_eq_spec() -> bool {
        true
    }

    open spec fn eq_spec(&self, o: &Stack) -> bool {
        self@ == o@
    }
}

impl Eq for Stack {
}

impl PartialEq for Game {
    fn eq(&self, o: &Game) -> (r: bool) {
        if self.size != o.size || self.half_komi != o.half_komi || self.ply != o.ply
            || self.reversible_plies != o.reversible_plies {
            assert(self@.size != o@.size || self@.half_komi != o@.half_komi || self@.ply != o@.ply
                || self@.reversible_plies != o@.reversible_plies);
            return false;
        }
        if self.to_move != o.to_move || self.white_reserves != o.white_reserves
            || self.black_reserves != o.black_reserves {
            return false;
        }
        if self.board.len() != o.board.len() {
            assert(self@.cells.len() != o@.cells.len());
            return false;
        }
        let mut i: usize = 0;
        while i < self.board.len()
            invariant
                self.board.len() == o.board.len(),
                i <= self.board.len(),
                forall|j: int| 0 <= j < i ==> self.board@[j]@ == o.board@[j]@,
            decreases self.board.len() - i,
        {
            if !(self.board[i] == o.board[i]) {
                assert(self@.cells[i as int] != o@.cells[i as int]);
                return false;
            }
            i = i + 1;
        }
        assert(self@.cells =~= o@.cells);
        true
    }
}

impl vstd::std_specs::cmp::PartialEqSpecImpl for Game {
    open spec fn obeys_eq_spec() -> bool {
        true
    }

    open spec fn eq_spec(&self, o: &Game) -> bool {
        self@ == o@
    }
}

impl Eq for Game {
}

} // verus!
