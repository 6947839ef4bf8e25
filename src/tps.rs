use vstd::prelude::*;
use crate::types::{Color, Piece};
use crate::game::Reserves;
use crate::game::{Game, GameView, CellView};
use crate::notation::{code, digit_char};
use crate::symmetry::sym_game;
use crate::text::string_of;

verus! {

pub open spec fn color_char(c: Color) -> char {
    match c {
        Color::White => '1',
        Color::Black => '2',
    }
}

pub open spec fn colors_text(s: Seq<Color>) -> Seq<char> {
    s.map_values(|c: Color| color_char(c))
}

/// A square in position notation: `x` when empty, else its colours from the bottom
/// (`1` White, `2` Black) and `S` or `C` for a wall or capstone on top.
pub open spec fn cell_text(c: CellView) -> Seq<char> {
    if c.1.len() == 0 {
        seq!['x']
    } else {
        colors_text(c.1) + match c.0 {
            Piece::Flat => Seq::empty(),
            Piece::Wall => seq!['S'],
            Piece::Cap => seq!['C'],
        }
    }
}

/// The board index of the `p`-th square written: the last row first, each row from column 0.
pub open spec fn written_index(n: int, p: int) -> int {
    (n - 1 - p / n) * n + p % n
}

pub open spec fn separator(n: int, p: int) -> Seq<char> {
    if p == 0 {
        Seq::empty()
    } else if p % n == 0 {
        seq!['/']
    } else {
        seq![',']
    }
}

/// The first `p` squares in writing order, rows split by `/` and squares by `,`.
pub open spec fn board_text(cells: Seq<CellView>, n: int, p: nat) -> Seq<char>
    decreases p,
{
    if p == 0 {
        Seq::empty()
    } else {
        board_text(cells, n, (p - 1) as nat) + separator(n, p - 1) + cell_text(cells[written_index(n, p - 1)])
    }
}

/// A number in decimal.
pub open spec fn number_text(k: nat) -> Seq<char>
    decreases k,
{
    if k < 10 {
        seq![digit_char(k as int)]
    } else {
        number_text(k / 10) + seq![digit_char((k % 10) as int)]
    }
}

/// A game's position text with every empty square written out: the board, the
/// colour to move, and the move number.
pub open spec fn plain_text(v: GameView) -> Seq<char> {
    board_text(v.cells, v.size, (v.size * v.size) as nat) + seq![' ', color_char(v.to_move), ' ']
        + number_text((1 + v.ply / 2) as nat)
}

/// How many empty squares, at most `cap`, stand in a row from `j` on: an `x`, then
/// each further one written `,x`.
pub open spec fn run_at(s: Seq<char>, j: int, cap: nat) -> nat
    decreases cap,
{
    if cap <= 1 || !(0 <= j && j + 2 < s.len() && s[j + 1] == ',' && s[j + 2] == 'x') {
        1
    } else {
        1 + run_at(s, j + 2, (cap - 1) as nat)
    }
}

/// `s` from `i` on, with each run of two to eight empty squares written `x` and its length.
pub open spec fn compressed_from(s: Seq<char>, i: int) -> Seq<char>
    decreases s.len() - i,
{
    if i < 0 || i >= s.len() {
        Seq::empty()
    } else if s[i] == 'x' {
        let k = run_at(s, i, 8);
        if k >= 2 && i + 2 * k - 1 <= s.len() {
            seq!['x', digit_char(k as int)] + compressed_from(s, i + 2 * k - 1)
        } else {
            seq!['x'] + compressed_from(s, i + 1)
        }
    } else {
        seq![s[i]] + compressed_from(s, i + 1)
    }
}

/// The position notation of a game: the board row by row from the last, squares split
/// by `,` and rows by `/`, runs of empty squares as `x` and their count; then the colour
/// to move and the move number.
pub open spec fn tps_text(v: GameView) -> Seq<char> {
    compressed_from(plain_text(v), 0)
}

/// Whether `a` comes before `b` in character order.
pub open spec fn text_lt(a: Seq<char>, b: Seq<char>) -> bool
    decreases a.len(),
{
    if a.len() == 0 {
        b.len() > 0
    } else if b.len() == 0 {
        false
    } else if code(a[0]) != code(b[0]) {
        code(a[0]) < code(b[0])
    } else {
        text_lt(a.drop_first(), b.drop_first())
    }
}

/// Writes `s` with its runs of empty squares compressed.
fn compress(s: &Vec<char>) -> (r: Vec<char>)
    ensures
        r@ == compressed_from(s@, 0),
{
    let n = s.len();
    let mut out: Vec<char> = Vec::new();
    let mut i: usize = 0;
    while i < n
        invariant
            i <= n,
            n == s.len(),
            out@ + compressed_from(s@, i as int) == compressed_from(s@, 0),
        decreases n - i,
    {
        if s[i] == 'x' {
            let mut k: usize = 1;
            let mut j: usize = i;
            while k < 8 && n - j > 2 && s[j + 1] == ',' && s[j + 2] == 'x'
                invariant
                    1 <= k <= 8,
                    j == i + 2 * (k - 1),
                    i < n,
                    n == s.len(),
                    j < n,
                    run_at(s@, i as int, 8) == (k - 1) + run_at(s@, j as int, (8 - (k - 1)) as nat),
                decreases 8 - k,
            {
                k = k + 1;
                j = j + 2;
            }
            assert(run_at(s@, j as int, (8 - (k - 1)) as nat) == 1);
            if k >= 2 {
                out.push('x');
                out.push((48u8 + k as u8) as char);
                assert(out@ + compressed_from(s@, (i + 2 * k - 1) as int) =~= compressed_from(s@, 0)) by {
                    assert(compressed_from(s@, i as int) == seq!['x', digit_char(k as int)] + compressed_from(s@, i + 2 * k - 1));
                }
                i = j + 1;
            } else {
                out.push('x');
                assert(out@ + compressed_from(s@, (i + 1) as int) =~= compressed_from(s@, 0));
                i = i + 1;
            }
        } else {
            out.push(s[i]);
            assert(out@ + compressed_from(s@, (i + 1) as int) =~= compressed_from(s@, 0));
            i = i + 1;
        }
    }
    assert(out@ =~= out@ + compressed_from(s@, i as int));
    out
}

fn push_number(out: &mut Vec<char>, k: u32)
    ensures
        final(out)@ == old(out)@ + number_text(k as nat),
    decreases k,
{
    if k < 10 {
        out.push((48u8 + k as u8) as char);
    } else {
        push_number(out, k / 10);
        out.push((48u8 + (k % 10) as u8) as char);
    }
}

fn color_code(c: Color) -> (r: char)
    ensures
        r == color_char(c),
{
    match c {
        Color::White => '1',
        Color::Black => '2',
    }
}

fn push_cell(out: &mut Vec<char>, s: &crate::game::Stack)
    ensures
        final(out)@ == old(out)@ + cell_text(s@),
{
    let ghost before = out@;
    if s.colors.len() == 0 {
        out.push('x');
        return;
    }
    let mut i: usize = 0;
    while i < s.colors.len()
        invariant
            i <= s.colors.len(),
            out@ == before + colors_text(s.colors@.subrange(0, i as int)),
        decreases s.colors.len() - i,
    {
        out.push(color_code(s.colors[i]));
        assert(colors_text(s.colors@.subrange(0, i + 1)) == colors_text(s.colors@.subrange(0, i as int)).push(
            color_char(s.colors@[i as int])));
        i = i + 1;
    }
    assert(s.colors@.subrange(0, s.colors.len() as int) == s.colors@);
    match s.piece {
        Piece::Flat => {},
        Piece::Wall => out.push('S'),
        Piece::Cap => out.push('C'),
    }
}

/// Whether `a` comes before `b` in character order.
pub fn chars_less(a: &Vec<char>, b: &Vec<char>) -> (r: bool)
    ensures
        r == text_lt(a@, b@),
{
    let mut i: usize = 0;
    assert(a@.subrange(0, a.len() as int) == a@);
    assert(b@.subrange(0, b.len() as int) == b@);
    while i < a.len() && i < b.len()
        invariant
            i <= a.len(),
            i <= b.len(),
            text_lt(a@, b@) == text_lt(a@.subrange(i as int, a.len() as int), b@.subrange(i as int, b.len() as int)),
        decreases a.len() - i,
    {
        let ghost x = a@.subrange(i as int, a.len() as int);
        let ghost y = b@.subrange(i as int, b.len() as int);
        assert(x.drop_first() == a@.subrange(i + 1, a.len() as int));
        assert(y.drop_first() == b@.subrange(i + 1, b.len() as int));
        let ca = a[i] as u32;
        let cb = b[i] as u32;
        if ca != cb {
            return ca < cb;
        }
        assert(code(x[0]) == code(y[0]));
        i = i + 1;
    }
    assert(a@.subrange(0, a.len() as int) == a@);
    i < b.len()
}

/// What `canonical` returns for `v`: the image of `v` under one of the eight symmetries
/// whose position text comes first.
pub open spec fn is_canonical_of(r: GameView, v: GameView) -> bool {
    &&& r.wf()
    &&& exists|k: int| 0 <= k < 8 && r == #[trigger] sym_game(v, k)
    &&& forall|k: int| 0 <= k < 8 ==> !text_lt(#[trigger] tps_text(sym_game(v, k)), tps_text(r))
}

impl Game {
    /// The position text of this game with every empty square written out.
    pub fn tps_chars(&self) -> (r: Vec<char>)
        requires
            self@.wf(),
        ensures
            r@ == plain_text(self@),
    {
        let n = self.size;
        proof {
            self@.lemma_small();
        }
        let nn = n * n;
        let mut out: Vec<char> = Vec::new();
        let mut p: usize = 0;
        while p < nn
            invariant
                self@.wf(),
                n == self.size,
                nn == n * n,
                nn <= 64,
                p <= nn,
                out@ == board_text(self@.cells, n as int, p as nat),
            decreases nn - p,
        {
            if p > 0 {
                if p % n == 0 {
                    out.push('/');
                } else {
                    out.push(',');
                }
            }
            assert(p / n < n) by (nonlinear_arith)
                requires
                    p < n * n,
                    n > 0,
            ;
            proof {
                crate::rules::lemma_index(n as int, n - 1 - p / n, p as int % n as int);
            }
            let w = (n - 1 - p / n) * n + p % n;
            push_cell(&mut out, &self.board[w]);
            p = p + 1;
        }
        out.push(' ');
        out.push(color_code(self.to_move));
        out.push(' ');
        push_number(&mut out, 1 + self.ply as u32 / 2);
        out
    }

    /// The position notation of this game, as characters.
    pub fn tps_compressed(&self) -> (r: Vec<char>)
        requires
            self@.wf(),
        ensures
            r@ == tps_text(self@),
    {
        let v = self.tps_chars();
        compress(&v)
    }

    /// The position notation of this game.
    pub fn to_tps(&self) -> (r: String)
        requires
            self@.wf(),
        ensures
            r@ == tps_text(self@),
    {
        let v = self.tps_compressed();
        string_of(&v)
    }

    /// The image of this game under the symmetry whose position notation comes first.
    pub fn canonical(&self) -> (r: Game)
        requires
            self@.wf(),
        ensures
            is_canonical_of(r@, self@),
    {
        let mut best = self.symmetry(0);
        let mut best_text = best.tps_compressed();
        let ghost mut best_k: int = 0;
        proof {
            lemma_text_lt_irrefl(best_text@);
        }
        let mut k: u8 = 1;
        while k < 8
            invariant
                self@.wf(),
                1 <= k <= 8,
                best@.wf(),
                0 <= best_k < 8,
                best@ == sym_game(self@, best_k),
                best_text@ == tps_text(best@),
                forall|j: int| 0 <= j < k ==> !text_lt(#[trigger] tps_text(sym_game(self@, j)), tps_text(best@)),
            decreases 8 - k,
        {
            let g = self.symmetry(k);
            let t = g.tps_compressed();
            if chars_less(&t, &best_text) {
                proof {
                    lemma_text_lt_order(best_text@, t@);
                    lemma_text_lt_irrefl(t@);
                    assert forall|j: int| 0 <= j < k implies !text_lt(#[trigger] tps_text(sym_game(self@, j)), t@) by {
                        if text_lt(tps_text(sym_game(self@, j)), t@) {
                            lemma_text_lt_trans(tps_text(sym_game(self@, j)), t@, best_text@);
                        }
                    }
                    best_k = k as int;
                }
                best = g;
                best_text = t;
            }
            assert(!text_lt(tps_text(sym_game(self@, k as int)), tps_text(best@)));
            k = k + 1;
        }
        best
    }
}

/// Character order is a strict order: transitive ...
pub proof fn lemma_text_lt_trans(a: Seq<char>, b: Seq<char>, c: Seq<char>)
    requires
        text_lt(a, b),
        text_lt(b, c),
    ensures
        text_lt(a, c),
    decreases a.len(),
{
    if a.len() > 0 && b.len() > 0 && c.len() > 0 && code(a[0]) == code(b[0]) && code(b[0]) == code(c[0]) {
        lemma_text_lt_trans(a.drop_first(), b.drop_first(), c.drop_first());
    }
}

/// ... irreflexive ...
pub proof fn lemma_text_lt_irrefl(a: Seq<char>)
    ensures
        !text_lt(a, a),
    decreases a.len(),
{
    if a.len() > 0 {
        lemma_text_lt_irrefl(a.drop_first());
    }
}

/// ... and asymmetric.
pub proof fn lemma_text_lt_order(a: Seq<char>, b: Seq<char>)
    requires
        text_lt(b, a),
    ensures
        !text_lt(a, b),
    decreases a.len(),
{
    if a.len() > 0 && b.len() > 0 && code(a[0]) == code(b[0]) {
        lemma_text_lt_order(a.drop_first(), b.drop_first());
    }
}

} // verus!

verus! {

/// Why a position's text could not be read.
#[derive(Clone, Copy, PartialEq, Eq, Structural, Debug, Hash)]
pub enum ParseTpsError {
    /// The size or half-komi is not one a game can have.
    Unsupported,
    /// A square, separator or row is missing or malformed.
    BadBoard,
    /// The colour to move is not `1` or `2`.
    BadColor,
    /// The move number is missing, has a leading zero, or is too large.
    BadMoveNumber,
    /// The board holds more pieces of a kind than a player has.
    InconsistentReserves,
}

/// `k` empty squares written one by one.
pub open spec fn empty_run(k: nat) -> Seq<char>
    decreases k,
{
    if k <= 1 {
        seq!['x']
    } else {
        empty_run((k - 1) as nat) + seq![',', 'x']
    }
}

/// The text with each run `x2` .. `x8` of empty squares written out square by square.
pub open spec fn expanded(s: Seq<char>) -> Seq<char>
    decreases s.len(),
{
    if s.len() == 0 {
        s
    } else if s.len() >= 2 && s[0] == 'x' && crate::notation::count_of(s[1]) is Some {
        empty_run(crate::notation::count_of(s[1])->0 as nat) + expanded(s.subrange(2, s.len() as int))
    } else {
        seq![s[0]] + expanded(s.drop_first())
    }
}

fn push_empty_run(out: &mut Vec<char>, k: u8)
    ensures
        final(out)@ == old(out)@ + empty_run(k as nat),
    decreases k,
{
    if k <= 1 {
        out.push('x');
    } else {
        push_empty_run(out, k - 1);
        out.push(',');
        out.push('x');
    }
}

/// Writes out the runs of empty squares in `s`.
fn expand_runs(s: &Vec<char>) -> (r: Vec<char>)
    ensures
        r@ == expanded(s@),
{
    let mut out: Vec<char> = Vec::new();
    let mut i: usize = 0;
    assert(s@.subrange(0, s.len() as int) == s@);
    assert(out@ + expanded(s@) == expanded(s@));
    while i < s.len()
        invariant
            i <= s.len(),
            out@ + expanded(s@.subrange(i as int, s.len() as int)) == expanded(s@),
        decreases s.len() - i,
    {
        let ghost rest = s@.subrange(i as int, s.len() as int);
        if s[i] == 'x' && i + 1 < s.len() {
            let c = s[i + 1] as u32;
            if 49 <= c && c <= 56 {
                assert(rest[1] == s@[i + 1]);
                assert(rest.subrange(2, rest.len() as int) == s@.subrange(i + 2, s.len() as int));
                push_empty_run(&mut out, (c - 48) as u8);
                i = i + 2;
                continue;
            }
        }
        assert(rest.drop_first() == s@.subrange(i + 1, s.len() as int));
        out.push(s[i]);
        i = i + 1;
    }
    assert(s@.subrange(s.len() as int, s.len() as int).len() == 0);
    assert(s@.subrange(0, s.len() as int) == s@);
    out
}

} // verus!

verus! {

/// The first `p` squares of `w`, taken in writing order, with their separators.
pub open spec fn written_text(w: Seq<CellView>, n: int, p: nat) -> Seq<char>
    decreases p,
{
    if p == 0 {
        Seq::empty()
    } else {
        written_text(w, n, (p - 1) as nat) + separator(n, p - 1) + cell_text(w[p - 1])
    }
}

/// Writing order lists the rows from the last; listing them from the last again gives
/// the board order back.
pub proof fn lemma_written_index(n: int, p: int)
    requires
        n > 0,
        0 <= p < n * n,
    ensures
        0 <= written_index(n, p) < n * n,
        written_index(n, written_index(n, p)) == p,
{
    let r = p / n;
    let c = p % n;
    vstd::arithmetic::div_mod::lemma_fundamental_div_mod(p, n);
    assert(0 <= r < n) by (nonlinear_arith)
        requires
            0 <= p < n * n,
            n > 0,
            r == p / n,
    ;
    let w = (n - 1 - r) * n + c;
    crate::rules::lemma_index(n, n - 1 - r, c);
    vstd::arithmetic::div_mod::lemma_fundamental_div_mod_converse(w, n, n - 1 - r, c);
    assert(written_index(n, w) == (n - 1 - (n - 1 - r)) * n + c);
    assert(n - 1 - (n - 1 - r) == r);
    assert(r * n == n * r) by (nonlinear_arith);
}

proof fn lemma_board_text_written(cells: Seq<CellView>, w: Seq<CellView>, n: int, p: nat)
    requires
        n > 0,
        p <= n * n,
        forall|q: int| 0 <= q < p ==> cells[written_index(n, q)] == #[trigger] w[q],
    ensures
        board_text(cells, n, p) == written_text(w, n, p),
    decreases p,
{
    if p > 0 {
        lemma_board_text_written(cells, w, n, (p - 1) as nat);
    }
}

/// Whether `t[pos..]` starts with the text of square `c`, and no square character follows.
pub open spec fn cell_at(t: Seq<char>, pos: int, c: CellView) -> bool {
    let e = pos + cell_text(c).len();
    &&& crate::game::cell_wf(c)
    &&& e <= t.len()
    &&& t.subrange(pos, e) == cell_text(c)
    &&& (e == t.len() || !crate::laws::cell_char(t[e]))
}

/// Reads one square at `pos`: `x`, or colours with an optional `S` or `C`. Where the
/// text holds square `expect` there, it is read whole.
#[verifier::loop_isolation(false)]
fn read_cell(t: &Vec<char>, pos: usize, expect: Ghost<CellView>) -> (r: Option<(crate::game::Stack, usize)>)
    requires
        pos < t.len(),
    ensures
        r matches Some((st, end)) ==> pos < end <= t.len() && t@.subrange(pos as int, end as int) == cell_text(st@)
            && crate::game::cell_wf(st@),
        cell_at(t@, pos as int, expect@) ==> (r matches Some((_, end)) && end == pos + cell_text(expect@).len()),
{
    let ghost c = expect@;
    let ghost cond = cell_at(t@, pos as int, c);
    let ghost ct = cell_text(c);
    proof {
        assert(colors_text(c.1).len() == c.1.len());
        if c.1.len() > 0 {
            if c.0 == Piece::Flat {
                assert(ct.len() == c.1.len());
            } else {
                assert(ct.len() == c.1.len() + 1);
            }
        }
        if cond && c.1.len() == 0 {
            assert(t@[pos as int] == ct[0]);
        }
        if cond && c.1.len() > 0 {
            assert(t@[pos as int] == ct[0]);
            assert(ct[0] == colors_text(c.1)[0]);
        }
    }
    if t[pos] == 'x' {
        let st = crate::game::Stack { piece: Piece::Flat, colors: Vec::new() };
        assert(t@.subrange(pos as int, pos + 1) == seq!['x']);
        return Some((st, pos + 1));
    }
    let mut colors: Vec<Color> = Vec::new();
    let mut j: usize = pos;
    while j < t.len() && (t[j] == '1' || t[j] == '2')
        invariant
            pos <= j <= t.len(),
            colors.len() == j - pos,
            t@.subrange(pos as int, j as int) == colors_text(colors@),
            cond ==> c.1.len() > 0 && j <= pos + c.1.len(),
        decreases t.len() - j,
    {
        proof {
            if cond && j == pos + c.1.len() {
                let e = pos + ct.len();
                if c.0 == Piece::Flat {
                    assert(e == j);
                } else {
                    assert(t@[j as int] == ct[c.1.len() as int]);
                }
            }
        }
        let col = if t[j] == '1' { Color::White } else { Color::Black };
        colors.push(col);
        assert(colors_text(colors@) == colors_text(colors@.drop_last()).push(color_char(col)));
        assert(colors@.drop_last() =~= colors@.subrange(0, colors.len() - 1));
        assert(t@.subrange(pos as int, j + 1) == t@.subrange(pos as int, j as int).push(t@[j as int]));
        j = j + 1;
    }
    proof {
        if cond && j < pos + c.1.len() {
            assert(t@[j as int] == ct[j - pos]);
            assert(ct[j - pos] == colors_text(c.1)[j - pos]);
        }
    }
    if j == pos {
        return None;
    }
    let piece = if j < t.len() && t[j] == 'S' {
        Piece::Wall
    } else if j < t.len() && t[j] == 'C' {
        Piece::Cap
    } else {
        Piece::Flat
    };
    proof {
        if cond {
            let e = pos + ct.len();
            if c.0 == Piece::Flat {
                assert(e == j);
            } else {
                assert(t@[j as int] == ct[c.1.len() as int]);
            }
        }
    }
    let end = if piece == Piece::Flat { j } else { j + 1 };
    assert(t@.subrange(pos as int, end as int) =~= cell_text((piece, colors@)));
    Some((crate::game::Stack { piece, colors }, end))
}

/// Whether `t` starts with the board text of `cells` followed by a space.
pub open spec fn board_at(t: Seq<char>, n: int, cells: Seq<CellView>) -> bool {
    let b = board_text(cells, n, (n * n) as nat);
    &&& cells.len() == n * n
    &&& forall|i: int| 0 <= i < cells.len() ==> crate::game::cell_wf(#[trigger] cells[i])
    &&& b.len() < t.len()
    &&& t.subrange(0, b.len() as int) == b
    &&& t[b.len() as int] == ' '
}

proof fn lemma_written_prefix(ws: Seq<CellView>, n: int, p: nat, q: nat)
    requires
        p <= q,
    ensures
        written_text(ws, n, q).subrange(0, written_text(ws, n, p).len() as int) == written_text(ws, n, p),
        written_text(ws, n, p).len() <= written_text(ws, n, q).len(),
    decreases q,
{
    if p < q {
        lemma_written_prefix(ws, n, p, (q - 1) as nat);
        let a = written_text(ws, n, (q - 1) as nat);
        let b = written_text(ws, n, q);
        assert(b == a + separator(n, q - 1) + cell_text(ws[q - 1]));
        assert(b.subrange(0, a.len() as int) == a);
    }
}

/// The squares of `w`, given in writing order, in board order.
fn board_order(w: &Vec<crate::game::Stack>, n: usize) -> (board: Vec<crate::game::Stack>)
    requires
        3 <= n <= 8,
        w.len() == n * n,
    ensures
        board.len() == n * n,
        forall|q: int| 0 <= q < n * n ==> (#[trigger] board@[q])@ == w@[written_index(n as int, q)]@,
{
    assert(n * n <= 64) by (nonlinear_arith)
        requires
            n <= 8,
    ;
    let nn = n * n;
    let mut board: Vec<crate::game::Stack> = Vec::new();
    let mut i: usize = 0;
    while i < nn
        invariant
            i <= nn,
            nn == n * n,
            3 <= n <= 8,
            board.len() == i,
            w.len() == nn,
            forall|q: int| 0 <= q < i ==> (#[trigger] board@[q])@ == w@[written_index(n as int, q)]@,
        decreases nn - i,
    {
        assert(i / n < n) by (nonlinear_arith)
            requires
                i < n * n,
                n > 0,
        ;
        proof {
            lemma_written_index(n as int, i as int);
            crate::rules::lemma_index(n as int, n - 1 - i / n, i as int % n as int);
        }
        let src = (n - 1 - i / n) * n + i % n;
        board.push(w[src].duplicate());
        i = i + 1;
    }
    board
}

/// Reads the board part of expanded position text: `n * n` squares in writing order.
/// Where the text holds the board `expect` followed by a space, it is read whole.
#[verifier::loop_isolation(false)]
#[verifier::rlimit(100)]
fn read_board(t: &Vec<char>, n: usize, expect: Ghost<Seq<CellView>>) -> (r: Option<(Vec<crate::game::Stack>, usize)>)
    requires
        3 <= n <= 8,
    ensures
        r matches Some((board, end)) ==> board.len() == n * n && end <= t.len()
            && t@.subrange(0, end as int) == board_text(board@.map_values(|s: crate::game::Stack| s@), n as int, (n * n) as nat)
            && forall|i: int| 0 <= i < board.len() ==> crate::game::cell_wf(#[trigger] board@[i]@),
        board_at(t@, n as int, expect@) ==> (r matches Some((_, end)) && end == board_text(expect@, n as int, (n * n) as nat).len()),
{
    let ghost cells = expect@;
    let ghost cond = board_at(t@, n as int, cells);
    let ghost ws = Seq::new((n * n) as nat, |q: int| cells[written_index(n as int, q)]);
    let ghost big = board_text(cells, n as int, (n * n) as nat);
    proof {
        if cond {
            assert forall|q: int| 0 <= q < n * n implies cells[written_index(n as int, q)] == #[trigger] ws[q] by {}
            lemma_board_text_written(cells, ws, n as int, (n * n) as nat);
            assert forall|q: int| 0 <= q < n * n implies crate::game::cell_wf(#[trigger] ws[q]) by {
                lemma_written_index(n as int, q);
            }
        }
    }
    assert(n * n <= 64) by (nonlinear_arith)
        requires
            n <= 8,
    ;
    let nn = n * n;
    let mut w: Vec<crate::game::Stack> = Vec::new();
    let mut pos: usize = 0;
    let mut p: usize = 0;
    while p < nn
        invariant
            p <= nn,
            w.len() == p,
            pos <= t.len(),
            t@.subrange(0, pos as int) == written_text(w@.map_values(|s: crate::game::Stack| s@), n as int, p as nat),
            forall|i: int| 0 <= i < w.len() ==> crate::game::cell_wf(#[trigger] w@[i]@),
            cond ==> w@.map_values(|s: crate::game::Stack| s@) == ws.subrange(0, p as int),
            cond ==> pos == written_text(ws, n as int, p as nat).len(),
        decreases nn - p,
    {
        let ghost before = t@.subrange(0, pos as int);
        let ghost next = written_text(ws, n as int, (p + 1) as nat);
        proof {
            if cond {
                lemma_written_prefix(ws, n as int, (p + 1) as nat, nn as nat);
                assert(big == written_text(ws, n as int, nn as nat));
                assert(t@.subrange(0, next.len() as int) == next) by {
                    assert(t@.subrange(0, big.len() as int).subrange(0, next.len() as int) == t@.subrange(0, next.len() as int));
                }
                let e = next.len() as int;
                if p + 1 < nn {
                    lemma_written_prefix(ws, n as int, (p + 2) as nat, nn as nat);
                    let after = written_text(ws, n as int, (p + 2) as nat);
                    assert(after == next + separator(n as int, p + 1) + cell_text(ws[p + 1]));
                    assert(t@[e] == after[e]);
                    assert(after[e] == separator(n as int, p + 1)[0]);
                } else {
                    assert(e == big.len());
                }
                assert(e == t.len() || !crate::laws::cell_char(t@[e]));
                assert(next == written_text(ws, n as int, p as nat) + separator(n as int, p as int) + cell_text(ws[p as int]));
                if p > 0 {
                    assert(t@[pos as int] == next[pos as int]);
                }
            }
        }
        if p > 0 {
            let sep = if p % n == 0 { '/' } else { ',' };
            if pos >= t.len() || t[pos] != sep {
                return None;
            }
            assert(t@.subrange(0, pos + 1) == before + separator(n as int, p as int));
            pos = pos + 1;
        } else {
            assert(t@.subrange(0, pos as int) == before + separator(n as int, p as int));
        }
        if pos >= t.len() {
            return None;
        }
        let ghost mid = t@.subrange(0, pos as int);
        proof {
            if cond {
                let ct = cell_text(ws[p as int]);
                assert(t@.subrange(pos as int, pos + ct.len()) == ct) by {
                    assert(t@.subrange(pos as int, pos + ct.len()) == next.subrange(pos as int, pos + ct.len()));
                }
                assert(cell_at(t@, pos as int, ws[p as int]));
            }
        }
        match read_cell(t, pos, Ghost(ws[p as int])) {
            None => return None,
            Some((st, end)) => {
                proof {
                    if cond {
                        crate::laws::lemma_cell_text_injective(st@, ws[p as int]);
                    }
                }
                assert(t@.subrange(0, end as int) == mid + t@.subrange(pos as int, end as int));
                let ghost old_w = w@.map_values(|s: crate::game::Stack| s@);
                w.push(st);
                assert(w@.map_values(|s: crate::game::Stack| s@).subrange(0, p as int) == old_w);
                proof {
                    lemma_written_text_prefix(w@.map_values(|s: crate::game::Stack| s@), old_w, n as int, p as nat);
                    if cond {
                        assert(w@.map_values(|s: crate::game::Stack| s@) =~= ws.subrange(0, p + 1));
                    }
                }
                pos = end;
            },
        }
        p = p + 1;
    }
    let board = board_order(&w, n);
    let ghost cells = board@.map_values(|s: crate::game::Stack| s@);
    let ghost ws = w@.map_values(|s: crate::game::Stack| s@);
    assert forall|q: int| 0 <= q < nn implies cells[written_index(n as int, q)] == #[trigger] ws[q] by {
        lemma_written_index(n as int, q);
    }
    proof {
        lemma_board_text_written(cells, ws, n as int, nn as nat);
    }
    assert forall|q: int| 0 <= q < board.len() implies crate::game::cell_wf(#[trigger] board@[q]@) by {
        lemma_written_index(n as int, q);
        assert(crate::game::cell_wf(w@[written_index(n as int, q)]@));
    }
    Some((board, pos))
}

proof fn lemma_written_text_prefix(w: Seq<CellView>, v: Seq<CellView>, n: int, p: nat)
    requires
        p <= v.len(),
        v.len() <= w.len(),
        w.subrange(0, v.len() as int) == v,
    ensures
        written_text(w, n, p) == written_text(v, n, p),
    decreases p,
{
    if p > 0 {
        lemma_written_text_prefix(w, v, n, (p - 1) as nat);
        assert(w[p - 1] == w.subrange(0, v.len() as int)[p - 1]);
    }
}

} // verus!

verus! {

proof fn lemma_number_step(v: nat, d: nat)
    requires
        v >= 1,
        d < 10,
    ensures
        number_text(v * 10 + d) == number_text(v) + seq![digit_char(d as int)],
{
    let k = v * 10 + d;
    assert(k / 10 == v && k % 10 == d);
}

proof fn lemma_number_shape(k: nat)
    ensures
        k < 10 ==> number_text(k).len() == 1,
        k < 100 ==> number_text(k).len() <= 2,
        k < 1000 ==> number_text(k).len() <= 3,
        k < 10000 ==> number_text(k).len() <= 4,
        k < 100000 ==> number_text(k).len() <= 5,
        k >= 1 ==> code(number_text(k)[0]) != 48,
        forall|i: int| 0 <= i < number_text(k).len() ==> 48 <= code(#[trigger] number_text(k)[i]) <= 57,
        number_text(k).len() >= 1,
    decreases k,
{
    if k >= 10 {
        lemma_number_shape(k / 10);
        let h = number_text(k / 10);
        assert(number_text(k) == h + seq![digit_char((k % 10) as int)]);
        assert(number_text(k)[0] == h[0]);
        assert forall|i: int| 0 <= i < number_text(k).len() implies 48 <= code(#[trigger] number_text(k)[i]) <= 57 by {
            if i < h.len() {
                assert(number_text(k)[i] == h[i]);
            }
        }
    }
}

/// Reads a move number from `t[start..]`: at most five digits, no leading zero, and a
/// value from 1 to 32768. The text of any such number is read back as that number.
fn read_number(t: &Vec<char>, start: usize) -> (r: Option<u32>)
    requires
        start <= t.len(),
    ensures
        r matches Some(k) ==> 1 <= k <= 32768 && t@.subrange(start as int, t.len() as int) == number_text(k as nat),
        forall|k: nat| 1 <= k <= 32768 && t@.subrange(start as int, t.len() as int) == #[trigger] number_text(k) ==> r == Some(k as u32),
{
    let ghost rest = t@.subrange(start as int, t.len() as int);
    proof {
        assert forall|k: nat| 1 <= k <= 32768 && rest == #[trigger] number_text(k) implies start < t.len() && t.len() - start <= 5
            && 49 <= code(t@[start as int]) <= 57 && forall|i: int| start <= i < t.len() ==> 48 <= code(#[trigger] t@[i]) <= 57 by {
            lemma_number_shape(k);
            assert(t@[start as int] == rest[0]);
            assert forall|i: int| start <= i < t.len() implies 48 <= code(#[trigger] t@[i]) <= 57 by {
                assert(t@[i] == rest[i - start]);
            }
        }
    }
    if start >= t.len() || t.len() - start > 5 {
        return None;
    }
    let first = t[start] as u32;
    if first < 49 || first > 57 {
        return None;
    }
    let mut v: u32 = first - 48;
    proof {
        vstd::utf8::char_u32_cast(t@[start as int], first);
        vstd::utf8::char_u32_cast(digit_char(v as int), first);
    }
    if (48u8 + v as u8) as char != t[start] {
        return None;
    }
    assert(t@.subrange(start as int, start + 1) == seq![t@[start as int]]);
    let mut j: usize = start + 1;
    while j < t.len()
        invariant
            start < j <= t.len(),
            t.len() - start <= 5,
            rest == t@.subrange(start as int, t.len() as int),
            1 <= v,
            j - start == 1 ==> v < 10,
            j - start == 2 ==> v < 100,
            j - start == 3 ==> v < 1000,
            j - start == 4 ==> v < 10000,
            j - start == 5 ==> v < 100000,
            t@.subrange(start as int, j as int) == number_text(v as nat),
            forall|k: nat| 1 <= k <= 32768 && rest == #[trigger] number_text(k) ==> forall|i: int| start <= i < t.len() ==> 48 <= code(#[trigger] t@[i]) <= 57,
        decreases t.len() - j,
    {
        let c = t[j] as u32;
        if c < 48 || c > 57 {
            proof {
                assert forall|k: nat| 1 <= k <= 32768 && rest == #[trigger] number_text(k) implies false by {
                    assert(48 <= code(t@[j as int]) <= 57);
                }
            }
            return None;
        }
        let d = c - 48;
        proof {
            lemma_number_step(v as nat, d as nat);
            vstd::utf8::char_u32_cast(t@[j as int], c);
            vstd::utf8::char_u32_cast(digit_char(d as int), c);
        }
        if (48u8 + d as u8) as char != t[j] {
            return None;
        }
        assert(t@.subrange(start as int, j + 1) == t@.subrange(start as int, j as int).push(t@[j as int]));
        v = v * 10 + d;
        j = j + 1;
    }
    proof {
        assert forall|k: nat| 1 <= k <= 32768 && rest == #[trigger] number_text(k) implies v == k by {
            crate::laws::lemma_number_text_injective_pub(v as nat, k);
        }
    }
    if v > 32768 {
        return None;
    }
    Some(v)
}

fn count_color(s: &Vec<Color>, c: Color) -> (r: u32)
    requires
        s.len() <= 104,
    ensures
        r == crate::game::color_count(s@, c),
        r <= s.len(),
{
    let mut k: u32 = 0;
    let mut j: usize = 0;
    while j < s.len()
        invariant
            j <= s.len() <= 104,
            k <= j,
            k == crate::game::color_count(s@.subrange(0, j as int), c),
        decreases s.len() - j,
    {
        assert(s@.subrange(0, j + 1).drop_last() == s@.subrange(0, j as int));
        if s[j] == c {
            k = k + 1;
        }
        j = j + 1;
    }
    assert(s@.subrange(0, s.len() as int) == s@);
    k
}

/// The pieces and the capstones of colour `c` on a board of short stacks.
fn count_on_board(board: &Vec<crate::game::Stack>, c: Color) -> (r: (u32, u32))
    requires
        board.len() <= 64,
        forall|i: int| 0 <= i < board.len() ==> (#[trigger] board@[i]).colors.len() <= 104,
    ensures
        r.0 == crate::game::pieces_on_board(board@.map_values(|s: crate::game::Stack| s@), c),
        r.1 == crate::game::caps_on_board(board@.map_values(|s: crate::game::Stack| s@), c),
{
    let ghost cells = board@.map_values(|s: crate::game::Stack| s@);
    let mut pieces: u32 = 0;
    let mut caps: u32 = 0;
    let mut i: usize = 0;
    while i < board.len()
        invariant
            i <= board.len() <= 64,
            cells == board@.map_values(|s: crate::game::Stack| s@),
            forall|q: int| 0 <= q < board.len() ==> (#[trigger] board@[q]).colors.len() <= 104,
            pieces <= 104 * i,
            caps <= i,
            pieces == crate::game::pieces_on_board(cells.subrange(0, i as int), c),
            caps == crate::game::caps_on_board(cells.subrange(0, i as int), c),
        decreases board.len() - i,
    {
        assert(cells.subrange(0, i + 1).drop_last() == cells.subrange(0, i as int));
        let s = &board[i];
        pieces = pieces + count_color(&s.colors, c);
        let len = s.colors.len();
        if len > 0 && s.piece == Piece::Cap && s.colors[len - 1] == c {
            caps = caps + 1;
        }
        i = i + 1;
    }
    assert(cells.subrange(0, board.len() as int) == cells);
    (pieces, caps)
}

impl Game {
    /// A game read from position text, with reserves worked out from the board: each
    /// player had the full reserves of the size and placed what is on the board.
    #[verifier::loop_isolation(false)]
    #[verifier::rlimit(100)]
    pub fn from_tps(size: usize, text: &str, half_komi: i8) -> (r: Result<Game, ParseTpsError>)
        ensures
            !crate::game::supported(size as int, half_komi as int) ==> r == Err::<Game, ParseTpsError>(ParseTpsError::Unsupported),
            r matches Ok(g) ==> {
                &&& g@.wf()
                &&& g@.size == size
                &&& g@.half_komi == half_komi
                &&& plain_text(g@) == expanded(text@)
                &&& crate::laws::consistent(g@)
                &&& g@.reversible_plies == 0
            },
            forall|v: GameView|
                crate::laws::consistent(v) && crate::game::supported(v.size, v.half_komi) && v.size == size && v.half_komi == half_komi && v.ply < 65536 && expanded(text@)
                    == #[trigger] plain_text(v) ==> (r matches Ok(g) && g@ == (GameView { reversible_plies: 0, ..v })),
    {
        let ghost has = exists|v: GameView|
            crate::laws::consistent(v) && crate::game::supported(v.size, v.half_komi) && v.size == size && v.half_komi == half_komi && v.ply < 65536 && expanded(text@)
                == #[trigger] plain_text(v);
        let ghost target = choose|v: GameView|
            crate::laws::consistent(v) && crate::game::supported(v.size, v.half_komi) && v.size == size && v.half_komi == half_komi && v.ply < 65536 && expanded(text@)
                == #[trigger] plain_text(v);
        if size < 3 || size > 8 || (half_komi != 0 && half_komi != 4) {
            return Err(ParseTpsError::Unsupported);
        }
        let s = crate::text::chars_of(text);
        let t = expand_runs(&s);
        let ghost big = board_text(target.cells, size as int, (size * size) as nat);
        let ghost num = number_text((1 + target.ply / 2) as nat);
        proof {
            if has {
                crate::laws::lemma_stack_heights(target);
                lemma_number_shape((1 + target.ply / 2) as nat);
                let tail = seq![' ', color_char(target.to_move), ' '] + num;
                assert(t@ == big + tail);
                assert(t@.subrange(0, big.len() as int) =~= big);
                assert(t@[big.len() as int] == ' ');
                assert(t@.subrange(big.len() as int + 3, t.len() as int) =~= num);
            }
        }
        let (board, end) = match read_board(&t, size, Ghost(target.cells)) {
            None => return Err(ParseTpsError::BadBoard),
            Some(x) => x,
        };
        proof {
            if has {
                assert(board_text(board@.map_values(|s: crate::game::Stack| s@), size as int, (size * size) as nat) == big);
                crate::laws::lemma_board_cells_equal(board@.map_values(|s: crate::game::Stack| s@), target.cells, size as int);
            }
        }
        if end >= t.len() || t.len() - end < 3 || t[end] != ' ' || t[end + 2] != ' ' {
            return Err(ParseTpsError::BadBoard);
        }
        let to_move = if t[end + 1] == '1' {
            Color::White
        } else if t[end + 1] == '2' {
            Color::Black
        } else {
            return Err(ParseTpsError::BadColor);
        };
        let number = match read_number(&t, end + 3) {
            None => return Err(ParseTpsError::BadMoveNumber),
            Some(k) => k,
        };
        let ply: u32 = 2 * (number - 1) + if to_move == Color::Black { 1 } else { 0 };
        let mut i: usize = 0;
        while i < board.len()
            invariant
                i <= board.len(),
                forall|q: int| 0 <= q < i ==> (#[trigger] board@[q]).colors.len() <= 104,
            decreases board.len() - i,
        {
            if board[i].colors.len() > 104 {
                proof {
                    if has {
                        assert(board@.map_values(|s: crate::game::Stack| s@)[i as int] == target.cells[i as int]);
                    }
                }
                return Err(ParseTpsError::InconsistentReserves);
            }
            i = i + 1;
        }
        assert(size * size <= 64) by (nonlinear_arith)
            requires
                size <= 8,
        ;
        let init = crate::game::starting_reserves(size);
        let (wp, wc) = count_on_board(&board, Color::White);
        let (bp, bc) = count_on_board(&board, Color::Black);
        if wc > init.caps as u32 || bc > init.caps as u32 {
            return Err(ParseTpsError::InconsistentReserves);
        }
        if wp > init.stones as u32 + wc || bp > init.stones as u32 + bc {
            return Err(ParseTpsError::InconsistentReserves);
        }
        let white = Reserves { stones: (init.stones as u32 + wc - wp) as u8, caps: (init.caps as u32 - wc) as u8 };
        let black = Reserves { stones: (init.stones as u32 + bc - bp) as u8, caps: (init.caps as u32 - bc) as u8 };
        let g = Game {
            size,
            half_komi,
            board,
            to_move,
            white_reserves: white,
            black_reserves: black,
            ply: ply as u16,
            reversible_plies: 0,
        };
        let ghost tail = t@.subrange(end as int, t.len() as int);
        assert(t@ == t@.subrange(0, end as int) + tail);
        assert(tail == seq![' ', color_char(to_move), ' '] + t@.subrange(end + 3, t.len() as int));
        assert(1 + ply / 2 == number);
        proof {
            assert forall|v: GameView|
                crate::laws::consistent(v) && crate::game::supported(v.size, v.half_komi) && v.size == size && v.half_komi
                    == half_komi && v.ply < 65536 && expanded(text@) == #[trigger] plain_text(v) implies g@ == (GameView {
                reversible_plies: 0,
                ..v
            }) by {
                crate::laws::lemma_tps_no_runs(v);
                crate::laws::lemma_expanded_no_runs(plain_text(v));
                crate::laws::lemma_tps_read_back(v, g@);
            }
        }
        Ok(g)
    }
}

} // verus!
