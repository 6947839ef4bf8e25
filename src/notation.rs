use vstd::prelude::*;
use crate::types::{Square, Piece, Direction, Move, MoveKind, MoveModel, drop_sum};
use crate::text::{chars_of, string_of};

verus! {

/// Why a move's text could not be read.
#[derive(Clone, Copy, PartialEq, Eq, Structural, Debug, Hash)]
pub enum ParseMoveError {
    /// Too short to hold a square, or no square where one must stand.
    BadSquare,
    /// A piece letter in front of a spread.
    BadPlacement,
    /// A pick-up count with nothing after the square.
    TruncatedSpread,
    /// An unknown direction symbol.
    BadDirection,
    /// A drop count that is not a digit from 1 to 8.
    BadPattern,
    /// The drop counts do not add up to the pick-up count.
    CountMismatch,
}

pub open spec fn code(c: char) -> int {
    c as u32 as int
}

/// The character for a digit value.
pub open spec fn digit_char(k: int) -> char {
    ((48 + k) as u8) as char
}

/// The value of a digit from 1 to 8, the only counts that a move can hold.
pub open spec fn count_of(c: char) -> Option<u8> {
    if 49 <= code(c) <= 56 {
        Some((code(c) - 48) as u8)
    } else {
        None
    }
}

pub open spec fn piece_of(c: char) -> Option<Piece> {
    if c == 'F' {
        Some(Piece::Flat)
    } else if c == 'S' {
        Some(Piece::Wall)
    } else if c == 'C' {
        Some(Piece::Cap)
    } else {
        None
    }
}

pub open spec fn direction_of(c: char) -> Option<Direction> {
    if c == '+' {
        Some(Direction::Up)
    } else if c == '-' {
        Some(Direction::Down)
    } else if c == '<' {
        Some(Direction::Left)
    } else if c == '>' {
        Some(Direction::Right)
    } else {
        None
    }
}

pub open spec fn direction_char(d: Direction) -> char {
    match d {
        Direction::Up => '+',
        Direction::Down => '-',
        Direction::Left => '<',
        Direction::Right => '>',
    }
}

/// A square written as a column letter `a`..`h` and a row digit `1`..`8`.
pub open spec fn square_of(a: char, b: char) -> Option<Square> {
    if 97 <= code(a) <= 104 && 49 <= code(b) <= 56 {
        Some(Square { row: (code(b) - 49) as u8, column: (code(a) - 97) as u8 })
    } else {
        None
    }
}

pub open spec fn square_text(sq: Square) -> Seq<char> {
    seq![((97 + sq.column) as u8) as char, ((49 + sq.row) as u8) as char]
}

/// The drop counts written as a run of digits, each from 1 to 8.
pub open spec fn drops_of(s: Seq<char>) -> Option<Seq<u8>>
    decreases s.len(),
{
    if s.len() == 0 {
        Some(Seq::empty())
    } else {
        match (drops_of(s.drop_last()), count_of(s.last())) {
            (Some(d), Some(k)) => Some(d.push(k)),
            _ => None,
        }
    }
}

pub open spec fn drops_text(s: Seq<u8>) -> Seq<char> {
    s.map_values(|k: u8| digit_char(k as int))
}

/// A move that can be written down: its square lies on the largest board, and a
/// spread drops at least one piece on each square, at most eight in all.
pub open spec fn valid_move(m: MoveModel) -> bool {
    match m {
        MoveModel::Place(sq, _) => sq.on_board(8),
        MoveModel::Spread(sq, _, drops) => {
            &&& sq.on_board(8)
            &&& drops.len() >= 1
            &&& forall|i: int| 0 <= i < drops.len() ==> 1 <= #[trigger] drops[i] <= 8
            &&& drop_sum(drops) <= 8
        },
    }
}

/// The notation of a move: an `S` or `C` before the square of a wall or capstone
/// placement; for a spread the pick-up count unless it is 1, the square, the
/// direction, and the drop counts unless there is only one.
pub open spec fn move_text(m: MoveModel) -> Seq<char> {
    match m {
        MoveModel::Place(sq, p) => match p {
            Piece::Flat => square_text(sq),
            Piece::Wall => seq!['S'] + square_text(sq),
            Piece::Cap => seq!['C'] + square_text(sq),
        },
        MoveModel::Spread(sq, d, drops) => {
            let count = if drop_sum(drops) == 1 { Seq::empty() } else { seq![digit_char(drop_sum(drops))] };
            let tail = if drops.len() == 1 { Seq::empty() } else { drops_text(drops) };
            count + square_text(sq) + seq![direction_char(d)] + tail
        },
    }
}

/// How a move's text is read. An optional piece letter (`F`, `S`, `C`) or pick-up
/// count (`1`..`8`) comes first, then the square. Nothing more makes a placement;
/// otherwise a direction symbol follows, then optional drop counts, which
/// default to dropping all the pieces picked up on the first square.
pub open spec fn parse_move_spec(s: Seq<char>) -> Result<MoveModel, ParseMoveError> {
    let piece = if s.len() >= 1 { piece_of(s[0]) } else { None };
    let count = if s.len() >= 1 { count_of(s[0]) } else { None };
    let start: int = if piece is Some || count is Some { 1 } else { 0 };
    if s.len() < start + 2 {
        Err(ParseMoveError::BadSquare)
    } else {
        match square_of(s[start], s[start + 1]) {
            None => Err(ParseMoveError::BadSquare),
            Some(sq) => {
                let rest = s.subrange(start + 2, s.len() as int);
                if rest.len() == 0 {
                    if count is Some {
                        Err(ParseMoveError::TruncatedSpread)
                    } else {
                        Ok(MoveModel::Place(sq, if piece is Some { piece->0 } else { Piece::Flat }))
                    }
                } else if piece is Some {
                    Err(ParseMoveError::BadPlacement)
                } else {
                    match direction_of(rest[0]) {
                        None => Err(ParseMoveError::BadDirection),
                        Some(d) => {
                            let k: u8 = if count is Some { count->0 } else { 1 };
                            let digits = rest.subrange(1, rest.len() as int);
                            match drops_of(digits) {
                                None => Err(ParseMoveError::BadPattern),
                                Some(found) => {
                                    let drops = if digits.len() == 0 { seq![k] } else { found };
                                    if drop_sum(drops) != k {
                                        Err(ParseMoveError::CountMismatch)
                                    } else {
                                        Ok(MoveModel::Spread(sq, d, drops))
                                    }
                                }
                            }
                        },
                    }
                }
            },
        }
    }
}

fn count_code(c: char) -> (r: Option<u8>)
    ensures
        r == count_of(c),
{
    let v = c as u32;
    if 49 <= v && v <= 56 {
        Some((v - 48) as u8)
    } else {
        None
    }
}

fn piece_code(c: char) -> (r: Option<Piece>)
    ensures
        r == piece_of(c),
{
    if c == 'F' {
        Some(Piece::Flat)
    } else if c == 'S' {
        Some(Piece::Wall)
    } else if c == 'C' {
        Some(Piece::Cap)
    } else {
        None
    }
}

fn direction_code(c: char) -> (r: Option<Direction>)
    ensures
        r == direction_of(c),
{
    if c == '+' {
        Some(Direction::Up)
    } else if c == '-' {
        Some(Direction::Down)
    } else if c == '<' {
        Some(Direction::Left)
    } else if c == '>' {
        Some(Direction::Right)
    } else {
        None
    }
}

fn square_code(a: char, b: char) -> (r: Option<Square>)
    ensures
        r == square_of(a, b),
{
    let x = a as u32;
    let y = b as u32;
    if 97 <= x && x <= 104 && 49 <= y && y <= 56 {
        Some(Square { row: (y - 49) as u8, column: (x - 97) as u8 })
    } else {
        None
    }
}

/// Reads a move from its characters.
#[verifier::loop_isolation(false)]
pub fn parse_move_chars(s: &Vec<char>) -> (r: Result<Move, ParseMoveError>)
    ensures
        match r {
            Ok(m) => parse_move_spec(s@) == Ok::<MoveModel, ParseMoveError>(m@) && valid_move(m@),
            Err(e) => parse_move_spec(s@) == Err::<MoveModel, ParseMoveError>(e),
        },
{
    let n = s.len();
    let piece = if n >= 1 { piece_code(s[0]) } else { None };
    let count = if n >= 1 { count_code(s[0]) } else { None };
    let start: usize = if piece.is_some() || count.is_some() { 1 } else { 0 };
    if n < start + 2 {
        return Err(ParseMoveError::BadSquare);
    }
    let sq = match square_code(s[start], s[start + 1]) {
        None => return Err(ParseMoveError::BadSquare),
        Some(sq) => sq,
    };
    let ghost rest = s@.subrange(start + 2, n as int);
    if n == start + 2 {
        if count.is_some() {
            return Err(ParseMoveError::TruncatedSpread);
        }
        let p = match piece {
            Some(p) => p,
            None => Piece::Flat,
        };
        return Ok(Move { square: sq, kind: MoveKind::Place(p) });
    }
    if piece.is_some() {
        return Err(ParseMoveError::BadPlacement);
    }
    assert(rest[0] == s@[start + 2]);
    let d = match direction_code(s[start + 2]) {
        None => return Err(ParseMoveError::BadDirection),
        Some(d) => d,
    };
    let k: u8 = match count {
        Some(k) => k,
        None => 1,
    };
    let ghost digits = rest.subrange(1, rest.len() as int);
    assert(digits == s@.subrange(start + 3, n as int));
    let mut drops: Vec<u8> = Vec::new();
    let mut i: usize = start + 3;
    while i < n
        invariant
            start + 3 <= i <= n,
            n == s.len(),
            drops_of(s@.subrange(start + 3, i as int)) == Some(drops@),
            drops.len() == i - (start + 3),
            digits == s@.subrange(start + 3, n as int),
            forall|t: int| 0 <= t < drops.len() ==> 1 <= #[trigger] drops@[t] <= 8,
        decreases n - i,
    {
        assert(s@.subrange(start + 3, i + 1).drop_last() == s@.subrange(start + 3, i as int));
        match count_code(s[i]) {
            None => {
                proof {
                    let all = s@.subrange(start + 3, n as int);
                    lemma_drops_of_prefix(all, (i - start - 3) as int);
                    assert(all.subrange(0, (i + 1 - start - 3) as int) == s@.subrange(start + 3, i + 1));
                    lemma_drops_of_none_extends(all, (i + 1 - start - 3) as int, all.len() as int);
                    assert(all.subrange(0, all.len() as int) == all);
                    assert(drops_of(all) is None);
                    assert(drops_of(digits) is None);
                }
                return Err(ParseMoveError::BadPattern);
            },
            Some(v) => {
                drops.push(v);
            },
        }
        i = i + 1;
    }
    if n == start + 3 {
        drops.push(k);
        assert(drops@ == seq![k]);
    }
    let total = sum_up_to(&drops, k);
    if total != k as u16 {
        return Err(ParseMoveError::CountMismatch);
    }
    Ok(Move { square: sq, kind: MoveKind::Spread(d, drops) })
}

/// The sum of `drops` when it is at most `limit`; some larger value otherwise.
pub fn sum_up_to(drops: &Vec<u8>, limit: u8) -> (r: u16)
    ensures
        drop_sum(drops@) <= limit ==> r == drop_sum(drops@),
        drop_sum(drops@) > limit ==> r > limit,
{
    let mut total: u8 = 0;
    let mut j: usize = 0;
    while j < drops.len()
        invariant
            j <= drops.len(),
            total == drop_sum(drops@.subrange(0, j as int)),
            total <= limit,
        decreases drops.len() - j,
    {
        assert(drops@.subrange(0, j + 1).drop_last() == drops@.subrange(0, j as int));
        if drops[j] > limit - total {
            proof {
                lemma_drop_sum_prefix(drops@, j + 1);
            }
            return limit as u16 + 1;
        }
        total = total + drops[j];
        j = j + 1;
    }
    assert(drops@.subrange(0, drops.len() as int) == drops@);
    total as u16
}

pub proof fn lemma_drop_sum_prefix(s: Seq<u8>, j: int)
    requires
        0 <= j <= s.len(),
    ensures
        drop_sum(s.subrange(0, j)) <= drop_sum(s),
    decreases s.len(),
{
    if j < s.len() {
        lemma_drop_sum_prefix(s.drop_last(), j);
        assert(s.drop_last().subrange(0, j) == s.subrange(0, j));
    } else {
        assert(s.subrange(0, j) == s);
    }
}

proof fn lemma_drops_of_none_extends(s: Seq<char>, i: int, j: int)
    requires
        0 <= i <= j <= s.len(),
        drops_of(s.subrange(0, i)) is None,
    ensures
        drops_of(s.subrange(0, j)) is None,
    decreases j - i,
{
    if i < j {
        lemma_drops_of_none_extends(s, i, j - 1);
        assert(s.subrange(0, j).drop_last() == s.subrange(0, j - 1));
    }
}

proof fn lemma_drops_of_prefix(s: Seq<char>, i: int)
    requires
        0 <= i < s.len(),
        count_of(s[i]) is None,
    ensures
        drops_of(s.subrange(0, i + 1)) is None,
{
    assert(s.subrange(0, i + 1).last() == s[i]);
}

} // verus!

verus! {

fn push_square(out: &mut Vec<char>, sq: Square)
    requires
        sq.on_board(8),
    ensures
        final(out)@ == old(out)@ + square_text(sq),
{
    out.push((97u8 + sq.column) as char);
    out.push((49u8 + sq.row) as char);
}

/// The notation of a move, as characters.
pub fn move_chars(m: &Move) -> (r: Vec<char>)
    requires
        valid_move(m@),
    ensures
        r@ == move_text(m@),
{
    let mut out: Vec<char> = Vec::new();
    match &m.kind {
        MoveKind::Place(p) => {
            match p {
                Piece::Flat => {},
                Piece::Wall => out.push('S'),
                Piece::Cap => out.push('C'),
            }
            push_square(&mut out, m.square);
        },
        MoveKind::Spread(d, drops) => {
            let total = sum_up_to(drops, 8);
            if total != 1 {
                out.push((48u8 + total as u8) as char);
            }
            push_square(&mut out, m.square);
            let dc = match d {
                Direction::Up => '+',
                Direction::Down => '-',
                Direction::Left => '<',
                Direction::Right => '>',
            };
            out.push(dc);
            if drops.len() != 1 {
                let ghost before = out@;
                let mut i: usize = 0;
                while i < drops.len()
                    invariant
                        i <= drops.len(),
                        out@ == before + drops_text(drops@.subrange(0, i as int)),
                        forall|t: int| 0 <= t < drops.len() ==> 1 <= #[trigger] drops@[t] <= 8,
                    decreases drops.len() - i,
                {
                    out.push((48u8 + drops[i]) as char);
                    assert(drops_text(drops@.subrange(0, i + 1)) == drops_text(drops@.subrange(0, i as int)).push(digit_char(drops@[i as int] as int)));
                    i = i + 1;
                }
                assert(drops@.subrange(0, drops.len() as int) == drops@);
            }
        },
    }
    out
}

impl Move {
    /// Reads a move from its notation.
    pub fn parse(s: &str) -> (r: Result<Move, ParseMoveError>)
        ensures
            match r {
                Ok(m) => parse_move_spec(s@) == Ok::<MoveModel, ParseMoveError>(m@) && valid_move(m@),
                Err(e) => parse_move_spec(s@) == Err::<MoveModel, ParseMoveError>(e),
            },
    {
        let v = chars_of(s);
        parse_move_chars(&v)
    }

    /// The notation of this move.
    pub fn to_text(&self) -> (r: String)
        requires
            valid_move(self@),
        ensures
            r@ == move_text(self@),
    {
        let v = move_chars(self);
        string_of(&v)
    }
}

proof fn lemma_drops_round_trip(d: Seq<u8>)
    requires
        forall|i: int| 0 <= i < d.len() ==> 1 <= #[trigger] d[i] <= 8,
    ensures
        drops_of(drops_text(d)) == Some(d),
    decreases d.len(),
{
    if d.len() > 0 {
        lemma_drops_round_trip(d.drop_last());
        assert(drops_text(d).drop_last() == drops_text(d.drop_last()));
        assert(d.drop_last().push(d.last()) == d);
    } else {
        assert(drops_text(d).len() == 0);
    }
}

/// Reading the notation of a move that can be written down gives that move back.
pub proof fn lemma_move_round_trip(m: MoveModel)
    requires
        valid_move(m),
    ensures
        parse_move_spec(move_text(m)) == Ok::<MoveModel, ParseMoveError>(m),
{
    let s = move_text(m);
    match m {
        MoveModel::Place(sq, p) => {
            assert(square_of(square_text(sq)[0], square_text(sq)[1]) == Some(sq));
            match p {
                Piece::Flat => {},
                Piece::Wall => {
                    assert(s.subrange(1, 3) == square_text(sq));
                },
                Piece::Cap => {
                    assert(s.subrange(1, 3) == square_text(sq));
                },
            }
        },
        MoveModel::Spread(sq, d, drops) => {
            let total = drop_sum(drops);
            assert(square_of(square_text(sq)[0], square_text(sq)[1]) == Some(sq));
            lemma_drops_round_trip(drops);
            if drops.len() == 1 {
                assert(drop_sum(drops) == drops[0]) by {
                    assert(drop_sum(drops.drop_last()) == 0);
                }
                assert(seq![drops[0]] == drops);
            }
            if total == 1 {
                let rest = s.subrange(2, s.len() as int);
                assert(rest[0] == direction_char(d));
                assert(rest.subrange(1, rest.len() as int) =~= if drops.len() == 1 { Seq::<char>::empty() } else { drops_text(drops) });
            } else {
                assert(total >= 1) by {
                    lemma_drop_sum_prefix(drops, 1);
                    assert(drop_sum(drops.subrange(0, 1)) == drops[0]) by {
                        assert(drop_sum(drops.subrange(0, 1).drop_last()) == 0);
                    }
                }
                assert(s[1] == square_text(sq)[0]);
                assert(s[2] == square_text(sq)[1]);
                let rest = s.subrange(3, s.len() as int);
                assert(rest[0] == direction_char(d));
                assert(rest.subrange(1, rest.len() as int) =~= if drops.len() == 1 { Seq::<char>::empty() } else { drops_text(drops) });
            }
        },
    }
}

} // verus!
