use vstd::prelude::*;
use crate::types::{Color, Piece, Direction, Square, Move, MoveKind, MoveModel, drop_sum, step_by};
use crate::game::{Game, GameView, CellView, Stack, Reserves, PlayError, GameResult, result_of};
use crate::notation::{sum_up_to, lemma_drop_sum_prefix};

verus! {

/// A drop pattern with at least one drop, none of them empty.
pub open spec fn pattern_ok(drops: Seq<u8>) -> bool {
    drops.len() >= 1 && forall|i: int| 0 <= i < drops.len() ==> #[trigger] drops[i] >= 1
}

/// The first obstacle met by a spread that leaves `(row, column)` in direction `d` and
/// drops `drops` in turn, carrying `piece` on top: a capstone, or a wall that is not
/// flattened by the capstone alone as the last drop.
pub open spec fn spread_block(
    cells: Seq<CellView>,
    n: int,
    row: int,
    column: int,
    d: Direction,
    drops: Seq<u8>,
    piece: Piece,
) -> Option<PlayError>
    decreases drops.len(),
{
    if drops.len() == 0 {
        None
    } else {
        let next = step_by(row, column, d, 1);
        let cell = cells[next.0 * n + next.1];
        if cell.1.len() > 0 && cell.0 == Piece::Cap {
            Some(PlayError::StackOnCap)
        } else if cell.1.len() > 0 && cell.0 == Piece::Wall && !(drops.len() == 1 && drops[0] == 1
            && piece == Piece::Cap) {
            Some(PlayError::StackOnWall)
        } else {
            spread_block(cells, n, next.0, next.1, d, drops.subrange(1, drops.len() as int), piece)
        }
    }
}

/// The board after dropping `carried` (bottom first) along direction `d` from
/// `(row, column)`, `drops[0]` pieces on the first square and so on; the last square
/// gets `piece` as its top, the others a flat.
pub open spec fn drop_run(
    cells: Seq<CellView>,
    n: int,
    row: int,
    column: int,
    d: Direction,
    carried: Seq<Color>,
    drops: Seq<u8>,
    piece: Piece,
) -> Seq<CellView>
    decreases drops.len(),
{
    if drops.len() == 0 {
        cells
    } else {
        let next = step_by(row, column, d, 1);
        let i = next.0 * n + next.1;
        let k = drops[0] as int;
        let top = if drops.len() == 1 { piece } else { Piece::Flat };
        drop_run(
            cells.update(i, (top, cells[i].1 + carried.subrange(0, k))),
            n,
            next.0,
            next.1,
            d,
            carried.subrange(k, carried.len() as int),
            drops.subrange(1, drops.len() as int),
            piece,
        )
    }
}

/// Why move `m` cannot be played in `v`, if it cannot.
pub open spec fn play_error(v: GameView, m: MoveModel) -> Option<PlayError> {
    if result_of(v) != GameResult::Ongoing {
        Some(PlayError::GameOver)
    } else {
        match m {
            MoveModel::Place(sq, p) => {
                let cell = v.cells[v.index(sq.row as int, sq.column as int)];
                let r = v.reserves(v.placer());
                if !v.in_bounds(sq.row as int, sq.column as int) {
                    Some(PlayError::OutOfBounds)
                } else if cell.1.len() > 0 {
                    Some(PlayError::AlreadyOccupied)
                } else if v.ply < 2 && p != Piece::Flat {
                    Some(PlayError::OpeningNonFlat)
                } else if p == Piece::Cap && r.caps == 0 {
                    Some(PlayError::NoCapstone)
                } else if p != Piece::Cap && r.stones == 0 {
                    Some(PlayError::NoStones)
                } else {
                    None
                }
            },
            MoveModel::Spread(sq, d, drops) => {
                let cell = v.cells[v.index(sq.row as int, sq.column as int)];
                let end = step_by(sq.row as int, sq.column as int, d, drops.len() as int);
                if !v.in_bounds(sq.row as int, sq.column as int) {
                    Some(PlayError::OutOfBounds)
                } else if v.ply < 2 {
                    Some(PlayError::OpeningNonFlat)
                } else if cell.1.len() == 0 {
                    Some(PlayError::EmptySquare)
                } else if cell.1.last() != v.to_move {
                    Some(PlayError::StackNotOwned)
                } else if !pattern_ok(drops) {
                    Some(PlayError::InvalidPattern)
                } else if drop_sum(drops) > v.size {
                    Some(PlayError::CarryLimit)
                } else if drop_sum(drops) > cell.1.len() {
                    Some(PlayError::StackSize)
                } else if !v.in_bounds(end.0, end.1) {
                    Some(PlayError::SpreadOutOfBounds)
                } else {
                    spread_block(v.cells, v.size, sq.row as int, sq.column as int, d, drops, cell.0)
                }
            },
        }
    }
}

/// The game after move `m`, when `play_error(v, m)` is `None`.
pub open spec fn apply(v: GameView, m: MoveModel) -> GameView {
    match m {
        MoveModel::Place(sq, p) => {
            let c = v.placer();
            let r = v.reserves(c);
            let r2 = if p == Piece::Cap {
                Reserves { caps: (r.caps - 1) as u8, ..r }
            } else {
                Reserves { stones: (r.stones - 1) as u8, ..r }
            };
            let i = v.index(sq.row as int, sq.column as int);
            GameView { cells: v.cells.update(i, (p, seq![c])), ..v.with_reserves(c, r2) }.next_ply(0)
        },
        MoveModel::Spread(sq, d, drops) => {
            let i = v.index(sq.row as int, sq.column as int);
            let cell = v.cells[i];
            let h = cell.1.len() as int;
            let k = drop_sum(drops);
            let left = v.cells.update(i, (Piece::Flat, cell.1.subrange(0, h - k)));
            let cells = drop_run(left, v.size, sq.row as int, sq.column as int, d, cell.1.subrange(h - k, h), drops, cell.0);
            let rev = if v.reversible_plies < 65535 { v.reversible_plies + 1 } else { 65535 };
            GameView { cells, ..v }.next_ply(rev)
        },
    }
}

pub proof fn lemma_index(n: int, r: int, c: int)
    requires
        0 <= r < n,
        0 <= c < n,
    ensures
        0 <= r * n + c < n * n,
{
    assert(0 <= r * n + c < n * n) by (nonlinear_arith)
        requires
            0 <= r < n,
            0 <= c < n,
    ;
}

pub proof fn lemma_drop_sum_len(s: Seq<u8>)
    requires
        forall|i: int| 0 <= i < s.len() ==> #[trigger] s[i] >= 1,
    ensures
        drop_sum(s) >= s.len(),
    decreases s.len(),
{
    if s.len() > 0 {
        lemma_drop_sum_len(s.drop_last());
    }
}

pub proof fn lemma_drop_sum_split(s: Seq<u8>, j: int)
    requires
        0 <= j < s.len(),
    ensures
        drop_sum(s.subrange(0, j + 1)) == drop_sum(s.subrange(0, j)) + s[j],
{
    assert(s.subrange(0, j + 1).drop_last() == s.subrange(0, j));
}

/// Appends `src[from..to]` to `colors`.
fn extend_from(colors: &mut Vec<Color>, src: &Vec<Color>, from: usize, to: usize)
    requires
        from <= to <= src.len(),
    ensures
        final(colors)@ == old(colors)@ + src@.subrange(from as int, to as int),
{
    let ghost below = colors@;
    let mut q: usize = from;
    while q < to
        invariant
            from <= q <= to <= src.len(),
            colors@ == below + src@.subrange(from as int, q as int),
        decreases to - q,
    {
        colors.push(src[q]);
        assert(src@.subrange(from as int, q + 1) == src@.subrange(from as int, q as int).push(src@[q as int]));
        q = q + 1;
    }
}

/// The square one step from `(r, c)`, which must lie on the board.
fn step_once(r: usize, c: usize, d: Direction, n: usize) -> (res: (usize, usize))
    requires
        r < 8,
        c < 8,
        0 <= step_by(r as int, c as int, d, 1).0 < n,
        0 <= step_by(r as int, c as int, d, 1).1 < n,
    ensures
        res.0 == step_by(r as int, c as int, d, 1).0,
        res.1 == step_by(r as int, c as int, d, 1).1,
{
    match d {
        Direction::Up => (r + 1, c),
        Direction::Down => (r - 1, c),
        Direction::Left => (r, c - 1),
        Direction::Right => (r, c + 1),
    }
}

} // verus!

verus! {

impl Game {
    fn index_of(&self, row: usize, column: usize) -> (r: usize)
        requires
            self@.wf(),
            row < self.size,
            column < self.size,
        ensures
            r == self@.index(row as int, column as int),
            r < self.board.len(),
    {
        proof {
            lemma_index(self.size as int, row as int, column as int);
            self@.lemma_small();
        }
        row * self.size + column
    }

    /// Why placing `p` on `sq` is illegal, in a game that is not over.
    fn place_error(&self, sq: Square, p: Piece) -> (r: Option<PlayError>)
        requires
            self@.wf(),
            result_of(self@) == GameResult::Ongoing,
        ensures
            r == play_error(self@, MoveModel::Place(sq, p)),
    {
        let n = self.size;
        if sq.row as usize >= n || sq.column as usize >= n {
            return Some(PlayError::OutOfBounds);
        }
        let i = self.index_of(sq.row as usize, sq.column as usize);
        if self.board[i].colors.len() > 0 {
            return Some(PlayError::AlreadyOccupied);
        }
        if self.ply < 2 && p != Piece::Flat {
            return Some(PlayError::OpeningNonFlat);
        }
        let placer = if self.ply < 2 { self.to_move.next() } else { self.to_move };
        let r = self.reserves_of(placer);
        if p == Piece::Cap && r.caps == 0 {
            return Some(PlayError::NoCapstone);
        }
        if p != Piece::Cap && r.stones == 0 {
            return Some(PlayError::NoStones);
        }
        None
    }

    /// Why the spread from `sq` in direction `d` with `drops` is illegal, in a game that is not over.
    #[verifier::loop_isolation(false)]
    fn spread_error(&self, sq: Square, d: Direction, drops: &Vec<u8>) -> (r: Option<PlayError>)
        requires
            self@.wf(),
            result_of(self@) == GameResult::Ongoing,
        ensures
            r == play_error(self@, MoveModel::Spread(sq, d, drops@)),
    {
        let n = self.size;
        if sq.row as usize >= n || sq.column as usize >= n {
            return Some(PlayError::OutOfBounds);
        }
        if self.ply < 2 {
            return Some(PlayError::OpeningNonFlat);
        }
        let i = self.index_of(sq.row as usize, sq.column as usize);
        let h = self.board[i].colors.len();
        if h == 0 {
            return Some(PlayError::EmptySquare);
        }
        if self.board[i].colors[h - 1] != self.to_move {
            return Some(PlayError::StackNotOwned);
        }
        let len = drops.len();
        if len == 0 {
            return Some(PlayError::InvalidPattern);
        }
        let mut j: usize = 0;
        while j < len
            invariant
                j <= len,
                forall|t: int| 0 <= t < j ==> #[trigger] drops@[t] >= 1,
            decreases len - j,
        {
            if drops[j] == 0 {
                return Some(PlayError::InvalidPattern);
            }
            j = j + 1;
        }
        let total = sum_up_to(drops, n as u8);
        if total > n as u16 {
            return Some(PlayError::CarryLimit);
        }
        if total as usize > h {
            return Some(PlayError::StackSize);
        }
        proof {
            lemma_drop_sum_len(drops@);
        }
        let row = sq.row as i64;
        let col = sq.column as i64;
        let l = len as i64;
        let (er, ec) = match d {
            Direction::Up => (row + l, col),
            Direction::Down => (row - l, col),
            Direction::Left => (row, col - l),
            Direction::Right => (row, col + l),
        };
        if er < 0 || ec < 0 || er >= n as i64 || ec >= n as i64 {
            return Some(PlayError::SpreadOutOfBounds);
        }
        let piece = self.board[i].piece;
        assert(drops@.subrange(0, len as int) == drops@);
        let mut r: usize = sq.row as usize;
        let mut c: usize = sq.column as usize;
        let mut j: usize = 0;
        while j < len
            invariant
                j <= len,
                r as int == step_by(sq.row as int, sq.column as int, d, j as int).0,
                c as int == step_by(sq.row as int, sq.column as int, d, j as int).1,
                spread_block(self@.cells, n as int, sq.row as int, sq.column as int, d, drops@, piece)
                    == spread_block(self@.cells, n as int, r as int, c as int, d, drops@.subrange(j as int, len as int), piece),
            decreases len - j,
        {
            let (r2, c2) = step_once(r, c, d, n);
            let t = self.index_of(r2, c2);
            let ghost rest = drops@.subrange(j as int, len as int);
            assert(rest[0] == drops@[j as int]);
            assert(rest.subrange(1, rest.len() as int) == drops@.subrange(j + 1, len as int));
            let cell = &self.board[t];
            if cell.colors.len() > 0 && cell.piece == Piece::Cap {
                return Some(PlayError::StackOnCap);
            }
            if cell.colors.len() > 0 && cell.piece == Piece::Wall && !(j + 1 == len && drops[j] == 1
                && piece == Piece::Cap) {
                return Some(PlayError::StackOnWall);
            }
            r = r2;
            c = c2;
            j = j + 1;
        }
        assert(drops@.subrange(len as int, len as int).len() == 0);
        assert(drops@.subrange(0, len as int) == drops@);
        None
    }
}

} // verus!

verus! {

impl Game {
    /// Moves the top `drop_sum(drops)` pieces of `sq` along `d`, on a spread already checked.
    #[verifier::loop_isolation(false)]
    #[verifier::rlimit(100)]
    fn run_spread(&mut self, sq: Square, d: Direction, drops: &Vec<u8>)
        requires
            old(self)@.wf(),
            result_of(old(self)@) == GameResult::Ongoing,
            play_error(old(self)@, MoveModel::Spread(sq, d, drops@)) is None,
        ensures
            final(self)@.wf(),
            final(self)@ == (GameView { cells: apply(old(self)@, MoveModel::Spread(sq, d, drops@)).cells, ..old(self)@ }),
    {
        let ghost v = self@;
        let n = self.size;
        let i = self.index_of(sq.row as usize, sq.column as usize);
        let total = sum_up_to(drops, n as u8);
        let k = total as usize;
        let len = drops.len();
        proof {
            lemma_drop_sum_len(drops@);
        }
        let mut origin = Stack { piece: Piece::Flat, colors: Vec::new() };
        self.board.set_and_swap(i, &mut origin);
        let h = origin.colors.len();
        let piece = origin.piece;
        let mut carried: Vec<Color> = Vec::new();
        let mut t: usize = h - k;
        while t < h
            invariant
                h - k <= t <= h,
                h == origin.colors.len(),
                carried@ == origin.colors@.subrange(h - k, t as int),
            decreases h - t,
        {
            carried.push(origin.colors[t]);
            t = t + 1;
        }
        let ghost whole = origin.colors@;
        origin.colors.truncate(h - k);
        origin.piece = Piece::Flat;
        self.board.set(i, origin);
        let ghost left = v.cells.update(i as int, (Piece::Flat, whole.subrange(0, h - k)));
        assert(self@.cells =~= left);
        let ghost target = drop_run(left, n as int, sq.row as int, sq.column as int, d, carried@, drops@, piece);
        assert(drops@.subrange(0, len as int) == drops@);
        assert(carried@.subrange(0, k as int) == carried@);
        assert(drops@.subrange(0, 0).len() == 0);
        let mut r: usize = sq.row as usize;
        let mut c: usize = sq.column as usize;
        let mut j: usize = 0;
        let mut off: usize = 0;
        while j < len
            invariant
                j <= len,
                off <= k,
                off == drop_sum(drops@.subrange(0, j as int)),
                carried.len() == k,
                self.size == n,
                self.board.len() == n * n,
                self@.wf(),
                self@ == (GameView { cells: self@.cells, ..v }),
                r as int == step_by(sq.row as int, sq.column as int, d, j as int).0,
                c as int == step_by(sq.row as int, sq.column as int, d, j as int).1,
                drop_run(self@.cells, n as int, r as int, c as int, d, carried@.subrange(off as int, k as int),
                    drops@.subrange(j as int, len as int), piece) == target,
            decreases len - j,
        {
            let (r2, c2) = step_once(r, c, d, n);
            let t = self.index_of(r2, c2);
            let cnt = drops[j] as usize;
            proof {
                lemma_drop_sum_split(drops@, j as int);
                lemma_drop_sum_prefix(drops@, j + 1);
            }
            let ghost cells = self@.cells;
            let mut st = Stack { piece: Piece::Flat, colors: Vec::new() };
            self.board.set_and_swap(t, &mut st);
            let ghost below = st.colors@;
            extend_from(&mut st.colors, &carried, off, off + cnt);
            st.piece = if j + 1 == len { piece } else { Piece::Flat };
            self.board.set(t, st);
            let ghost rest = drops@.subrange(j as int, len as int);
            let ghost hand = carried@.subrange(off as int, k as int);
            assert(rest[0] == drops@[j as int]);
            assert(rest.subrange(1, rest.len() as int) == drops@.subrange(j + 1, len as int));
            assert(hand.subrange(0, cnt as int) == carried@.subrange(off as int, off + cnt));
            assert(hand.subrange(cnt as int, hand.len() as int) == carried@.subrange(off + cnt, k as int));
            assert(self@.cells =~= cells.update(t as int, (st.piece, cells[t as int].1 + hand.subrange(0, cnt as int))));
            off = off + cnt;
            r = r2;
            c = c2;
            j = j + 1;
        }
        assert(carried@ == whole.subrange(h - k, h as int));
    }

    /// Plays a move. On an illegal move the game is left as it was.
    pub fn play(&mut self, m: &Move) -> (r: Result<(), PlayError>)
        requires
            old(self)@.wf(),
            old(self).ply < 65535,
        ensures
            final(self)@.wf(),
            crate::laws::consistent(old(self)@) ==> crate::laws::consistent(final(self)@),
            match r {
                Ok(()) => play_error(old(self)@, m@) is None && final(self)@ == apply(old(self)@, m@),
                Err(e) => play_error(old(self)@, m@) == Some(e) && *final(self) == *old(self),
            },
    {
        match self.result() {
            GameResult::Ongoing => {},
            _ => return Err(PlayError::GameOver),
        }
        match &m.kind {
            MoveKind::Place(p) => {
                if let Some(e) = self.place_error(m.square, *p) {
                    return Err(e);
                }
                let ghost v = self@;
                let placer = if self.ply < 2 { self.to_move.next() } else { self.to_move };
                let i = self.index_of(m.square.row as usize, m.square.column as usize);
                let mut colors: Vec<Color> = Vec::new();
                colors.push(placer);
                self.board.set(i, Stack { piece: *p, colors });
                let mut r = self.reserves_of(placer);
                if *p == Piece::Cap {
                    r.caps = r.caps - 1;
                } else {
                    r.stones = r.stones - 1;
                }
                match placer {
                    Color::White => self.white_reserves = r,
                    Color::Black => self.black_reserves = r,
                }
                self.reversible_plies = 0;
                assert(self@.cells =~= v.cells.update(i as int, (*p, seq![placer])));
            },
            MoveKind::Spread(d, drops) => {
                if let Some(e) = self.spread_error(m.square, *d, drops) {
                    return Err(e);
                }
                self.run_spread(m.square, *d, drops);
                if self.reversible_plies < 65535 {
                    self.reversible_plies = self.reversible_plies + 1;
                }
            },
        }
        self.ply = self.ply + 1;
        self.to_move = self.to_move.next();
        proof {
            if crate::laws::consistent(old(self)@) {
                crate::laws::lemma_consistent_play(old(self)@, m@);
            }
        }
        Ok(())
    }
}

} // verus!

verus! {

/// A drop pattern that splits `total` pieces: drops of at least one piece each.
pub open spec fn splits(s: Seq<u8>, total: int) -> bool {
    (forall|j: int| 0 <= j < s.len() ==> #[trigger] s[j] >= 1) && drop_sum(s) == total
}

pub open spec fn square_of_move(m: MoveModel) -> Square {
    match m {
        MoveModel::Place(sq, _) => sq,
        MoveModel::Spread(sq, _, _) => sq,
    }
}

/// Whether `m` is legal in `v`.
pub open spec fn legal(v: GameView, m: MoveModel) -> bool {
    play_error(v, m) is None
}

/// Whether some entry of `out` is `target`.
pub open spec fn listed(out: Seq<Vec<u8>>, target: Seq<u8>) -> bool {
    exists|i: int| 0 <= i < out.len() && (#[trigger] out[i])@ == target
}

/// Whether some move of `moves` is `m`.
pub open spec fn offered(moves: Seq<Move>, m: MoveModel) -> bool {
    exists|i: int| 0 <= i < moves.len() && (#[trigger] moves[i])@ == m
}

proof fn lemma_split_first(s: Seq<u8>, total: int)
    requires
        splits(s, total),
        total > 0,
    ensures
        s.len() > 0,
        1 <= s[0] <= total,
        splits(s.subrange(1, s.len() as int), total - s[0]),
{
    if s.len() == 0 {
        assert(drop_sum(s) == 0);
    }
    crate::laws::lemma_drop_sum_first(s);
    let rest = s.subrange(1, s.len() as int);
    crate::laws::lemma_drop_sum_nonneg(rest);
    assert forall|j: int| 0 <= j < rest.len() implies #[trigger] rest[j] >= 1 by {
        assert(rest[j] == s[j + 1]);
    }
}

/// Appends to `out`, after `prefix`, every way of splitting `total` pieces into drops.
fn compositions(prefix: &mut Vec<u8>, total: u8, out: &mut Vec<Vec<u8>>)
    requires
        total <= 8,
    ensures
        final(prefix)@ == old(prefix)@,
        final(out)@.len() >= old(out)@.len(),
        forall|i: int| 0 <= i < old(out)@.len() ==> final(out)@[i] == old(out)@[i],
        forall|s: Seq<u8>| splits(s, total as int) ==> listed(final(out)@, old(prefix)@ + s),
    decreases total,
{
    if total == 0 {
        let copy = copy_u8s(prefix);
        out.push(copy);
        assert forall|s: Seq<u8>| splits(s, total as int) implies listed(out@, prefix@ + s) by {
            lemma_drop_sum_len(s);
            assert(s.len() == 0);
            assert(prefix@ + s == prefix@);
            assert(out@[out@.len() - 1]@ == prefix@ + s);
        }
        return;
    }
    let ghost start = prefix@;
    let ghost before = out@;
    let mut d: u8 = 1;
    while d <= total
        invariant
            1 <= d <= total + 1,
            total <= 8,
            prefix@ == start,
            out@.len() >= before.len(),
            forall|i: int| 0 <= i < before.len() ==> out@[i] == before[i],
            forall|s: Seq<u8>| splits(s, total as int) && s[0] < d ==> listed(out@, start + s),
        decreases total + 1 - d,
    {
        let ghost mid = out@;
        prefix.push(d);
        let ghost pd = prefix@;
        compositions(prefix, total - d, out);
        prefix.pop();
        assert(prefix@ == start) by {
            assert(pd.drop_last() == start);
        }
        assert forall|s: Seq<u8>| splits(s, total as int) && s[0] < d + 1 implies listed(out@, start + s) by {
            lemma_split_first(s, total as int);
            let rest = s.subrange(1, s.len() as int);
            if s[0] == d {
                assert(splits(rest, (total - d) as int));
                assert(listed(out@, pd + rest));
                assert(pd + rest == start + s);
            } else {
                assert(listed(mid, start + s));
                let i = choose|i: int| 0 <= i < mid.len() && (#[trigger] mid[i])@ == start + s;
                assert(out@[i] == mid[i]);
            }
        }
        d = d + 1;
    }
    assert forall|s: Seq<u8>| splits(s, total as int) implies listed(out@, start + s) by {
        lemma_split_first(s, total as int);
    }
}

pub open spec fn dir_index(d: Direction) -> int {
    match d {
        Direction::Up => 0,
        Direction::Down => 1,
        Direction::Left => 2,
        Direction::Right => 3,
    }
}

pub open spec fn extends(old: Seq<Move>, new: Seq<Move>) -> bool {
    old.len() <= new.len() && forall|i: int| 0 <= i < old.len() ==> new[i] == old[i]
}

/// No move is listed twice.
pub open spec fn distinct(moves: Seq<Move>) -> bool {
    forall|i: int, j: int| 0 <= i < j < moves.len() ==> (#[trigger] moves[i])@ != (#[trigger] moves[j])@
}

/// Appends `m` unless an equal move is listed already.
fn push_new(moves: &mut Vec<Move>, m: Move)
    requires
        distinct(old(moves)@),
    ensures
        extends(old(moves)@, final(moves)@),
        distinct(final(moves)@),
        offered(final(moves)@, m@),
        final(moves)@.len() <= old(moves)@.len() + 1,
        final(moves)@.len() == old(moves)@.len() + 1 ==> final(moves)@[old(moves)@.len() as int]@ == m@,
{
    let ghost start = moves@;
    assert(distinct(start));
    let mut i: usize = 0;
    while i < moves.len()
        invariant
            i <= moves.len(),
            moves@ == start,
            distinct(start),
            forall|j: int| 0 <= j < i ==> (#[trigger] moves@[j])@ != m@,
        decreases moves.len() - i,
    {
        if moves[i] == m {
            assert(moves@[i as int]@ == m@);
            return;
        }
        i = i + 1;
    }
    let ghost old_moves = moves@;
    moves.push(m);
    assert(moves@[old_moves.len() as int]@ == m@);
}

pub open spec fn all_legal(v: GameView, moves: Seq<Move>) -> bool {
    forall|i: int| 0 <= i < moves.len() ==> legal(v, (#[trigger] moves[i])@)
}

proof fn lemma_offered_kept(old: Seq<Move>, new: Seq<Move>, m: MoveModel)
    requires
        extends(old, new),
        offered(old, m),
    ensures
        offered(new, m),
{
    let i = choose|i: int| 0 <= i < old.len() && (#[trigger] old[i])@ == m;
    assert(new[i] == old[i]);
}

proof fn lemma_extends_trans(a: Seq<Move>, b: Seq<Move>, c: Seq<Move>)
    requires
        extends(a, b),
        extends(b, c),
    ensures
        extends(a, c),
{
}

proof fn lemma_legal_valid(v: GameView, m: MoveModel)
    requires
        v.wf(),
        legal(v, m),
    ensures
        crate::notation::valid_move(m),
{
    match m {
        MoveModel::Place(sq, p) => {},
        MoveModel::Spread(sq, d, drops) => {
            assert forall|i: int| 0 <= i < drops.len() implies 1 <= #[trigger] drops[i] <= 8 by {
                lemma_drop_sum_prefix(drops, i + 1);
                lemma_drop_sum_split(drops, i);
                crate::laws::lemma_drop_sum_nonneg(drops.subrange(0, i));
            }
        },
    }
}

impl Game {
    /// The legal moves of the position: every move listed is legal, and every legal move
    /// is listed. A game that is over has none.
    pub fn possible_moves(&self) -> (r: Vec<Move>)
        requires
            self@.wf(),
        ensures
            all_legal(self@, r@),
            forall|m: MoveModel| legal(self@, m) ==> offered(r@, m),
            distinct(r@),
            forall|i: int| 0 <= i < r.len() ==> crate::notation::valid_move((#[trigger] r@[i])@),
    {
        let mut moves: Vec<Move> = Vec::new();
        match self.result() {
            GameResult::Ongoing => {},
            _ => return moves,
        }
        let n = self.size;
        let mut row: u8 = 0;
        while (row as usize) < n
            invariant
                self@.wf(),
                n == self.size,
                result_of(self@) == GameResult::Ongoing,
                all_legal(self@, moves@),
                distinct(moves@),
                forall|m: MoveModel| legal(self@, m) && square_of_move(m).row < row ==> offered(moves@, m),
            decreases n - row as usize,
        {
            let mut col: u8 = 0;
            while (col as usize) < n
                invariant
                    self@.wf(),
                    n == self.size,
                    (row as usize) < n,
                    result_of(self@) == GameResult::Ongoing,
                    all_legal(self@, moves@),
                    distinct(moves@),
                    forall|m: MoveModel| legal(self@, m) && (square_of_move(m).row < row || (square_of_move(m).row == row
                        && square_of_move(m).column < col)) ==> offered(moves@, m),
                decreases n - col as usize,
            {
                let sq = Square { row, column: col };
                let ghost m0 = moves@;
                self.add_places(sq, &mut moves);
                let ghost m1 = moves@;
                self.add_spreads(sq, &mut moves);
                proof {
                    lemma_extends_trans(m0, m1, moves@);
                    assert forall|m: MoveModel| legal(self@, m) && (square_of_move(m).row < row || (square_of_move(m).row
                        == row && square_of_move(m).column < col + 1)) implies offered(moves@, m) by {
                        if square_of_move(m) == sq {
                            match m {
                                MoveModel::Place(q, p) => {
                                    assert(q == sq);
                                    assert(offered(m1, MoveModel::Place(sq, p)));
                                    lemma_offered_kept(m1, moves@, m);
                                },
                                MoveModel::Spread(q, d, drops) => {},
                            }
                        } else {
                            lemma_offered_kept(m0, moves@, m);
                        }
                    }
                }
                col = col + 1;
            }
            assert forall|m: MoveModel| legal(self@, m) && square_of_move(m).row < row + 1 implies offered(moves@, m) by {
                if square_of_move(m).row == row {
                    assert(square_of_move(m).column < n);
                }
            }
            row = row + 1;
        }
        assert forall|i: int| 0 <= i < moves.len() implies crate::notation::valid_move((#[trigger] moves@[i])@) by {
            lemma_legal_valid(self@, moves@[i]@);
        }
        moves
    }

    fn add_places(&self, sq: Square, moves: &mut Vec<Move>)
        requires
            self@.wf(),
            result_of(self@) == GameResult::Ongoing,
            all_legal(self@, old(moves)@),
            distinct(old(moves)@),
        ensures
            extends(old(moves)@, final(moves)@),
            all_legal(self@, final(moves)@),
            distinct(final(moves)@),
            forall|p: Piece| legal(self@, MoveModel::Place(sq, p)) ==> offered(final(moves)@, MoveModel::Place(sq, p)),
    {
        let ghost m0 = moves@;
        if self.place_error(sq, Piece::Flat).is_none() {
            push_new(moves, Move { square: sq, kind: MoveKind::Place(Piece::Flat) });
        }
        let ghost m1 = moves@;
        if self.place_error(sq, Piece::Wall).is_none() {
            push_new(moves, Move { square: sq, kind: MoveKind::Place(Piece::Wall) });
        }
        let ghost m2 = moves@;
        if self.place_error(sq, Piece::Cap).is_none() {
            push_new(moves, Move { square: sq, kind: MoveKind::Place(Piece::Cap) });
        }
        proof {
            assert forall|p: Piece| legal(self@, MoveModel::Place(sq, p)) implies offered(moves@, MoveModel::Place(sq, p)) by {
                match p {
                    Piece::Flat => {
                        lemma_offered_kept(m1, m2, MoveModel::Place(sq, p));
                        lemma_offered_kept(m2, moves@, MoveModel::Place(sq, p));
                    },
                    Piece::Wall => {
                        lemma_offered_kept(m2, moves@, MoveModel::Place(sq, p));
                    },
                    Piece::Cap => {},
                }
            }
        }
    }

    #[verifier::loop_isolation(false)]
    fn add_spreads(&self, sq: Square, moves: &mut Vec<Move>)
        requires
            self@.wf(),
            result_of(self@) == GameResult::Ongoing,
            all_legal(self@, old(moves)@),
            distinct(old(moves)@),
        ensures
            extends(old(moves)@, final(moves)@),
            all_legal(self@, final(moves)@),
            distinct(final(moves)@),
            forall|d: Direction, drops: Seq<u8>| legal(self@, MoveModel::Spread(sq, d, drops)) ==> offered(final(moves)@, MoveModel::Spread(sq, d, drops)),
    {
        let ghost m0 = moves@;
        let n = self.size;
        if sq.row as usize >= n || sq.column as usize >= n {
            return;
        }
        let i = self.index_of(sq.row as usize, sq.column as usize);
        let h = self.board[i].colors.len();
        if h == 0 || self.board[i].colors[h - 1] != self.to_move {
            return;
        }
        let most: u8 = if h < n { h as u8 } else { n as u8 };
        let dirs = [Direction::Up, Direction::Down, Direction::Left, Direction::Right];
        assert(forall|k: int| 0 <= k < 4 ==> dir_index(#[trigger] dirs@[k]) == k);
        let mut pickup: u8 = 1;
        assert forall|d: Direction, drops: Seq<u8>| legal(self@, MoveModel::Spread(sq, d, drops)) implies drop_sum(drops) >= 1 by {
            lemma_drop_sum_len(drops);
        }
        while pickup <= most
            invariant
                1 <= pickup,
                most <= 8,
                extends(m0, moves@),
                all_legal(self@, moves@),
                distinct(moves@),
                forall|d: Direction, drops: Seq<u8>| legal(self@, MoveModel::Spread(sq, d, drops)) && drop_sum(drops) < pickup
                    ==> offered(moves@, MoveModel::Spread(sq, d, drops)),
            decreases most + 1 - pickup,
        {
            let mut cands: Vec<Vec<u8>> = Vec::new();
            let mut prefix: Vec<u8> = Vec::new();
            compositions(&mut prefix, pickup, &mut cands);
            assert(forall|s: Seq<u8>| splits(s, pickup as int) ==> listed(cands@, Seq::<u8>::empty() + s));
            let mut di: usize = 0;
            while di < 4
                invariant
                    1 <= pickup <= most <= 8,
                    extends(m0, moves@),
                    all_legal(self@, moves@),
                    distinct(moves@),
                    forall|d: Direction, drops: Seq<u8>| legal(self@, MoveModel::Spread(sq, d, drops)) && (drop_sum(drops) < pickup
                        || (drop_sum(drops) == pickup && dir_index(d) < di)) ==> offered(moves@, MoveModel::Spread(sq, d, drops)),
                decreases 4 - di,
            {
                let d = dirs[di];
                let mut ci: usize = 0;
                while ci < cands.len()
                    invariant
                        1 <= pickup <= most <= 8,
                        di < 4,
                        d == dirs@[di as int],
                        extends(m0, moves@),
                        all_legal(self@, moves@),
                        distinct(moves@),
                        forall|d2: Direction, drops: Seq<u8>| legal(self@, MoveModel::Spread(sq, d2, drops)) && (drop_sum(drops) < pickup
                            || (drop_sum(drops) == pickup && dir_index(d2) < di) || (drop_sum(drops) == pickup && d2 == d
                            && exists|j: int| 0 <= j < ci && (#[trigger] cands@[j])@ == drops)) ==> offered(moves@, MoveModel::Spread(sq, d2, drops)),
                    decreases cands.len() - ci,
                {
                    let ghost before = moves@;
                    let e = self.spread_error(sq, d, &cands[ci]);
                    if e.is_none() {
                        let drops = copy_u8s(&cands[ci]);
                        push_new(moves, Move { square: sq, kind: MoveKind::Spread(d, drops) });
                    }
                    proof {
                        assert(extends(before, moves@));
                        assert forall|d2: Direction, drops: Seq<u8>| legal(self@, MoveModel::Spread(sq, d2, drops)) && (drop_sum(drops) < pickup
                            || (drop_sum(drops) == pickup && dir_index(d2) < di) || (drop_sum(drops) == pickup && d2 == d
                            && exists|j: int| 0 <= j < ci + 1 && (#[trigger] cands@[j])@ == drops)) implies offered(moves@, MoveModel::Spread(sq, d2, drops)) by {
                            if drop_sum(drops) == pickup && d2 == d && cands@[ci as int]@ == drops {
                            } else {
                                lemma_offered_kept(before, moves@, MoveModel::Spread(sq, d2, drops));
                            }
                        }
                    }
                    ci = ci + 1;
                }
                proof {
                    assert forall|d2: Direction, drops: Seq<u8>| legal(self@, MoveModel::Spread(sq, d2, drops)) && (drop_sum(drops) < pickup
                        || (drop_sum(drops) == pickup && dir_index(d2) < di + 1)) implies offered(moves@, MoveModel::Spread(sq, d2, drops)) by {
                        if drop_sum(drops) == pickup && dir_index(d2) == di {
                            assert(d2 == d);
                            assert(splits(drops, pickup as int));
                            assert(Seq::<u8>::empty() + drops == drops);
                            assert(listed(cands@, drops));
                        }
                    }
                }
                di = di + 1;
            }
            proof {
                assert forall|d2: Direction, drops: Seq<u8>| legal(self@, MoveModel::Spread(sq, d2, drops)) && drop_sum(drops) < pickup + 1
                    implies offered(moves@, MoveModel::Spread(sq, d2, drops)) by {
                    assert(0 <= dir_index(d2) < 4);
                }
            }
            pickup = pickup + 1;
        }
        proof {
            assert forall|d2: Direction, drops: Seq<u8>| legal(self@, MoveModel::Spread(sq, d2, drops)) implies offered(moves@, MoveModel::Spread(sq, d2, drops)) by {
                assert(drop_sum(drops) <= h);
                assert(drop_sum(drops) <= n);
            }
        }
    }
}

fn copy_u8s(v: &Vec<u8>) -> (r: Vec<u8>)
    ensures
        r@ == v@,
{
    let mut out: Vec<u8> = Vec::new();
    let mut i: usize = 0;
    while i < v.len()
        invariant
            i <= v.len(),
            out@ == v@.subrange(0, i as int),
        decreases v.len() - i,
    {
        out.push(v[i]);
        i = i + 1;
    }
    assert(v@.subrange(0, v.len() as int) == v@);
    out
}

} // verus!

verus! {

impl Game {
    /// Plays a move on a copy of this game and returns the copy; this game is left as it is.
    pub fn clone_and_play(&self, m: &Move) -> (r: Result<Game, PlayError>)
        requires
            self@.wf(),
            self.ply < 65535,
        ensures
            match r {
                Ok(g) => play_error(self@, m@) is None && g@ == apply(self@, m@) && g@.wf(),
                Err(e) => play_error(self@, m@) == Some(e),
            },
    {
        let mut g = self.duplicate();
        match g.play(m) {
            Ok(()) => Ok(g),
            Err(e) => Err(e),
        }
    }
}

} // verus!
