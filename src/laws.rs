use vstd::prelude::*;
use crate::types::{Color, Piece, Direction, MoveModel, drop_sum, step_by};
use crate::game::{
    GameView, CellView, color_count, is_cap_of, pieces_on_board, caps_on_board, conserved, conserved_for,
    start_view, initial_reserves, empty_cell,
};
use crate::rules::{play_error, apply, drop_run, spread_block, lemma_index, lemma_drop_sum_len};
use crate::symmetry::{sym, sym_cells, inverse, sym_game};
use crate::tps::{is_canonical_of, plain_text, tps_text, compressed_from, run_at, expanded, empty_run, text_lt, cell_text, colors_text, board_text, separator, written_index};

verus! {

proof fn lemma_color_count_concat(a: Seq<Color>, b: Seq<Color>, c: Color)
    ensures
        color_count(a + b, c) == color_count(a, c) + color_count(b, c),
    decreases b.len(),
{
    if b.len() > 0 {
        lemma_color_count_concat(a, b.drop_last(), c);
        assert((a + b).drop_last() == a + b.drop_last());
    } else {
        assert(a + b == a);
    }
}

proof fn lemma_color_count_split(s: Seq<Color>, k: int, c: Color)
    requires
        0 <= k <= s.len(),
    ensures
        color_count(s, c) == color_count(s.subrange(0, k), c) + color_count(s.subrange(k, s.len() as int), c),
{
    lemma_color_count_concat(s.subrange(0, k), s.subrange(k, s.len() as int), c);
    assert(s.subrange(0, k) + s.subrange(k, s.len() as int) == s);
}

proof fn lemma_pieces_update(cells: Seq<CellView>, i: int, x: CellView, c: Color)
    requires
        0 <= i < cells.len(),
    ensures
        pieces_on_board(cells.update(i, x), c) == pieces_on_board(cells, c) - color_count(cells[i].1, c) + color_count(x.1, c),
    decreases cells.len(),
{
    let u = cells.update(i, x);
    if i == cells.len() - 1 {
        assert(u.drop_last() == cells.drop_last());
    } else {
        lemma_pieces_update(cells.drop_last(), i, x, c);
        assert(u.drop_last() == cells.drop_last().update(i, x));
    }
}

proof fn lemma_caps_update(cells: Seq<CellView>, i: int, x: CellView, c: Color)
    requires
        0 <= i < cells.len(),
    ensures
        caps_on_board(cells.update(i, x), c) == caps_on_board(cells, c) - (if is_cap_of(cells[i], c) { 1int } else { 0 })
            + (if is_cap_of(x, c) { 1int } else { 0 }),
    decreases cells.len(),
{
    let u = cells.update(i, x);
    if i == cells.len() - 1 {
        assert(u.drop_last() == cells.drop_last());
    } else {
        lemma_caps_update(cells.drop_last(), i, x, c);
        assert(u.drop_last() == cells.drop_last().update(i, x));
    }
}

/// Whether a square holds a capstone on top.
pub open spec fn has_cap(cell: CellView) -> bool {
    cell.1.len() > 0 && cell.0 == Piece::Cap
}

pub open spec fn on(n: int, p: (int, int)) -> bool {
    0 <= p.0 < n && 0 <= p.1 < n
}

proof fn lemma_block_no_caps(cells: Seq<CellView>, n: int, row: int, column: int, d: Direction, drops: Seq<u8>, piece: Piece)
    requires
        spread_block(cells, n, row, column, d, drops, piece) is None,
    ensures
        forall|t: int| 1 <= t <= drops.len() ==> {
            let q = #[trigger] step_by(row, column, d, t);
            !has_cap(cells[q.0 * n + q.1])
        },
    decreases drops.len(),
{
    if drops.len() > 0 {
        let next = step_by(row, column, d, 1);
        lemma_block_no_caps(cells, n, next.0, next.1, d, drops.subrange(1, drops.len() as int), piece);
        assert forall|t: int| 1 <= t <= drops.len() implies {
            let q = #[trigger] step_by(row, column, d, t);
            !has_cap(cells[q.0 * n + q.1])
        } by {
            if t > 1 {
                assert(step_by(next.0, next.1, d, t - 1) == step_by(row, column, d, t));
            }
        }
    }
}

proof fn lemma_run_pieces(
    cells: Seq<CellView>,
    n: int,
    row: int,
    column: int,
    d: Direction,
    carried: Seq<Color>,
    drops: Seq<u8>,
    piece: Piece,
    c: Color,
)
    requires
        cells.len() == n * n,
        on(n, (row, column)),
        on(n, step_by(row, column, d, drops.len() as int)),
        carried.len() == drop_sum(drops),
    ensures
        pieces_on_board(drop_run(cells, n, row, column, d, carried, drops, piece), c) == pieces_on_board(cells, c)
            + color_count(carried, c),
    decreases drops.len(),
{
    if drops.len() == 0 {
        assert(carried.len() == 0);
        assert(color_count(carried, c) == 0);
    } else {
        let next = step_by(row, column, d, 1);
        let i = next.0 * n + next.1;
        let k = drops[0] as int;
        let top = if drops.len() == 1 { piece } else { Piece::Flat };
        let rest = drops.subrange(1, drops.len() as int);
        lemma_drop_sum_first(drops);
        lemma_drop_sum_nonneg(rest);
        lemma_index(n, next.0, next.1);
        let x = (top, cells[i].1 + carried.subrange(0, k));
        lemma_pieces_update(cells, i, x, c);
        lemma_color_count_concat(cells[i].1, carried.subrange(0, k), c);
        lemma_color_count_split(carried, k, c);
        assert(step_by(next.0, next.1, d, rest.len() as int) == step_by(row, column, d, drops.len() as int));
        lemma_run_pieces(cells.update(i, x), n, next.0, next.1, d, carried.subrange(k, carried.len() as int), rest, piece, c);
    }
}

pub proof fn lemma_drop_sum_nonneg(s: Seq<u8>)
    ensures
        drop_sum(s) >= 0,
    decreases s.len(),
{
    if s.len() > 0 {
        lemma_drop_sum_nonneg(s.drop_last());
    }
}

pub proof fn lemma_drop_sum_first(s: Seq<u8>)
    requires
        s.len() > 0,
    ensures
        drop_sum(s) == s[0] + drop_sum(s.subrange(1, s.len() as int)),
    decreases s.len(),
{
    if s.len() == 1 {
        assert(drop_sum(s.drop_last()) == 0);
        assert(s.subrange(1, 1).len() == 0);
    } else {
        lemma_drop_sum_first(s.drop_last());
        assert(s.drop_last().subrange(1, s.len() - 1) == s.subrange(1, s.len() as int).drop_last());
    }
}

proof fn lemma_run_caps(
    cells: Seq<CellView>,
    n: int,
    row: int,
    column: int,
    d: Direction,
    carried: Seq<Color>,
    drops: Seq<u8>,
    piece: Piece,
    c: Color,
)
    requires
        cells.len() == n * n,
        on(n, (row, column)),
        on(n, step_by(row, column, d, drops.len() as int)),
        drops.len() >= 1,
        forall|i: int| 0 <= i < drops.len() ==> #[trigger] drops[i] >= 1,
        carried.len() == drop_sum(drops),
        forall|t: int| 1 <= t <= drops.len() ==> {
            let q = #[trigger] step_by(row, column, d, t);
            !has_cap(cells[q.0 * n + q.1])
        },
    ensures
        caps_on_board(drop_run(cells, n, row, column, d, carried, drops, piece), c) == caps_on_board(cells, c)
            + (if piece == Piece::Cap && carried.last() == c { 1int } else { 0 }),
    decreases drops.len(),
{
    let next = step_by(row, column, d, 1);
    let i = next.0 * n + next.1;
    let k = drops[0] as int;
    let top = if drops.len() == 1 { piece } else { Piece::Flat };
    let rest = drops.subrange(1, drops.len() as int);
    lemma_drop_sum_first(drops);
    lemma_drop_sum_nonneg(rest);
    lemma_index(n, next.0, next.1);
    let x = (top, cells[i].1 + carried.subrange(0, k));
    assert(drop_run(cells, n, row, column, d, carried, drops, piece) == drop_run(
        cells.update(i, x), n, next.0, next.1, d, carried.subrange(k, carried.len() as int), rest, piece));
    assert(!has_cap(cells[i])) by {
        assert(step_by(row, column, d, 1) == next);
    }
    lemma_caps_update(cells, i, x, c);
    let u = cells.update(i, x);
    if drops.len() == 1 {
        assert(rest.len() == 0);
        assert(drop_sum(rest) == 0);
        assert(carried.subrange(0, k) == carried);
        assert(x.1.last() == carried.last());
        assert(drop_run(u, n, next.0, next.1, d, carried.subrange(k, carried.len() as int), rest, piece) == u);
    } else {
        assert(rest.len() >= 1);
        assert(forall|j: int| 0 <= j < rest.len() ==> #[trigger] rest[j] == drops[j + 1]);
        lemma_drop_sum_len(rest);
        assert(carried.subrange(k, carried.len() as int).last() == carried.last());
        assert(step_by(next.0, next.1, d, rest.len() as int) == step_by(row, column, d, drops.len() as int));
        assert forall|t: int| 1 <= t <= rest.len() implies {
            let q = #[trigger] step_by(next.0, next.1, d, t);
            !has_cap(u[q.0 * n + q.1])
        } by {
            let q = step_by(row, column, d, t + 1);
            assert(step_by(next.0, next.1, d, t) == q);
            assert(on(n, q));
            lemma_index(n, q.0, q.1);
        }
        lemma_run_caps(u, n, next.0, next.1, d, carried.subrange(k, carried.len() as int), rest, piece, c);
    }
}

/// Reserve conservation: a legal move keeps every piece of each colour either in
/// its owner's hand or on the board, for stones and capstones alike.
pub proof fn lemma_play_conserves(v: GameView, m: MoveModel)
    requires
        v.wf(),
        conserved(v),
        play_error(v, m) is None,
    ensures
        conserved(apply(v, m)),
{
    lemma_move_conserves_for(v, m, Color::White);
    lemma_move_conserves_for(v, m, Color::Black);
}

proof fn lemma_move_conserves_for(v: GameView, m: MoveModel, c: Color)
    requires
        v.wf(),
        conserved_for(v, c),
        play_error(v, m) is None,
    ensures
        conserved_for(apply(v, m), c),
{
    let n = v.size;
    let a = apply(v, m);
    match m {
        MoveModel::Place(sq, p) => {
            let i = v.index(sq.row as int, sq.column as int);
            lemma_index(n, sq.row as int, sq.column as int);
            let x = (p, seq![v.placer()]);
            lemma_pieces_update(v.cells, i, x, c);
            lemma_caps_update(v.cells, i, x, c);
            assert(color_count(v.cells[i].1, c) == 0);
            assert(seq![v.placer()].drop_last().len() == 0);
            assert(color_count(seq![v.placer()].drop_last(), c) == 0);
            assert(color_count(x.1, c) == if v.placer() == c { 1int } else { 0 });
        },
        MoveModel::Spread(sq, d, drops) => {
            let i = v.index(sq.row as int, sq.column as int);
            lemma_index(n, sq.row as int, sq.column as int);
            let cell = v.cells[i];
            let h = cell.1.len() as int;
            let k = drop_sum(drops);
            lemma_drop_sum_len(drops);
            let carried = cell.1.subrange(h - k, h);
            let o = (Piece::Flat, cell.1.subrange(0, h - k));
            let left = v.cells.update(i, o);
            lemma_pieces_update(v.cells, i, o, c);
            lemma_caps_update(v.cells, i, o, c);
            lemma_color_count_split(cell.1, h - k, c);
            lemma_run_pieces(left, n, sq.row as int, sq.column as int, d, carried, drops, cell.0, c);
            lemma_block_no_caps(v.cells, n, sq.row as int, sq.column as int, d, drops, cell.0);
            assert forall|t: int| 1 <= t <= drops.len() implies {
                let q = #[trigger] step_by(sq.row as int, sq.column as int, d, t);
                !has_cap(left[q.0 * n + q.1])
            } by {
                let q = step_by(sq.row as int, sq.column as int, d, t);
                assert(on(n, q));
                lemma_index(n, q.0, q.1);
            }
            lemma_run_caps(left, n, sq.row as int, sq.column as int, d, carried, drops, cell.0, c);
            assert(carried.last() == cell.1.last());
        },
    }
}

/// A new game has every piece in hand.
pub proof fn lemma_start_conserved(n: int, half_komi: int)
    requires
        3 <= n <= 8,
    ensures
        conserved(start_view(n, half_komi)),
{
    let cells = start_view(n, half_komi).cells;
    lemma_empty_counts(cells, Color::White);
    lemma_empty_counts(cells, Color::Black);
}

proof fn lemma_empty_counts(cells: Seq<CellView>, c: Color)
    requires
        forall|i: int| 0 <= i < cells.len() ==> #[trigger] cells[i] == empty_cell(),
    ensures
        pieces_on_board(cells, c) == 0,
        caps_on_board(cells, c) == 0,
    decreases cells.len(),
{
    if cells.len() > 0 {
        lemma_empty_counts(cells.drop_last(), c);
        assert(cells.last() == empty_cell());
    }
}

} // verus!

verus! {

/// The symmetry that first applies `b`, then `a`, on squares.
pub open spec fn compose(a: int, b: int) -> int {
    let ta = a % 4;
    let tb = b % 4;
    let t = if a >= 4 { (ta + 4 - tb) % 4 } else { (ta + tb) % 4 };
    let m = (a >= 4) != (b >= 4);
    if m { t + 4 } else { t }
}

proof fn lemma_sym_compose(n: int, a: int, b: int, p: (int, int))
    requires
        0 <= a < 8,
        0 <= b < 8,
    ensures
        crate::symmetry::sym(n, a, crate::symmetry::sym(n, b, p)) == crate::symmetry::sym(n, compose(a, b), p),
{
    reveal_with_fuel(crate::symmetry::rotate_times, 4);
    let q = crate::symmetry::sym(n, b, p);
    if b < 4 {
        if a < 4 {
        } else {
        }
    } else {
        if a < 4 {
        } else {
        }
    }
    assert(a == 0 || a == 1 || a == 2 || a == 3 || a == 4 || a == 5 || a == 6 || a == 7);
    assert(b == 0 || b == 1 || b == 2 || b == 3 || b == 4 || b == 5 || b == 6 || b == 7);
}

} // verus!

verus! {

proof fn lemma_row_col(n: int, p: (int, int))
    requires
        on(n, p),
    ensures
        (p.0 * n + p.1) / n == p.0,
        (p.0 * n + p.1) % n == p.1,
{
    vstd::arithmetic::div_mod::lemma_fundamental_div_mod_converse(p.0 * n + p.1, n, p.0, p.1);
}

proof fn lemma_split_index(n: int, i: int)
    requires
        n > 0,
        0 <= i < n * n,
    ensures
        on(n, (i / n, i % n)),
        (i / n) * n + i % n == i,
{
    vstd::arithmetic::div_mod::lemma_fundamental_div_mod(i, n);
    assert(0 <= i / n < n) by (nonlinear_arith)
        requires
            0 <= i < n * n,
            n > 0,
    ;
    assert((i / n) * n == n * (i / n)) by (nonlinear_arith);
}

proof fn lemma_sym_on(n: int, k: int, p: (int, int))
    requires
        0 <= k < 8,
        on(n, p),
    ensures
        on(n, crate::symmetry::sym(n, k, p)),
{
    reveal_with_fuel(crate::symmetry::rotate_times, 4);
    assert(k == 0 || k == 1 || k == 2 || k == 3 || k == 4 || k == 5 || k == 6 || k == 7);
}

/// Symmetry `j` after symmetry `k` is the single symmetry `after(j, k)`.
pub open spec fn after(j: int, k: int) -> int {
    crate::symmetry::inverse(compose(crate::symmetry::inverse(k), crate::symmetry::inverse(j)))
}

proof fn lemma_sym_cells_compose(c: Seq<CellView>, n: int, k: int, j: int)
    requires
        n > 0,
        c.len() == n * n,
        0 <= k < 8,
        0 <= j < 8,
    ensures
        0 <= after(j, k) < 8,
        crate::symmetry::sym_cells(crate::symmetry::sym_cells(c, n, k), n, j) == crate::symmetry::sym_cells(c, n, after(j, k)),
{
    let ik = inverse(k);
    let ij = inverse(j);
    let l = after(j, k);
    assert(inverse(l) == compose(ik, ij));
    let s1 = sym_cells(c, n, k);
    let lhs = sym_cells(s1, n, j);
    let rhs = sym_cells(c, n, l);
    assert forall|i: int| 0 <= i < n * n implies lhs[i] == rhs[i] by {
        let p = (i / n, i % n);
        lemma_split_index(n, i);
        let q = sym(n, ij, p);
        lemma_sym_on(n, ij, p);
        lemma_index(n, q.0, q.1);
        lemma_row_col(n, q);
        lemma_sym_compose(n, ik, ij, p);
    }
    assert(lhs =~= rhs);
}

proof fn lemma_sym_cells_identity(c: Seq<CellView>, n: int)
    requires
        n > 0,
        c.len() == n * n,
    ensures
        crate::symmetry::sym_cells(c, n, 0) == c,
{
    let s = crate::symmetry::sym_cells(c, n, 0);
    assert forall|i: int| 0 <= i < n * n implies s[i] == c[i] by {
        lemma_split_index(n, i);
    }
    assert(s =~= c);
}

proof fn lemma_text_lt_total(a: Seq<char>, b: Seq<char>)
    requires
        !crate::tps::text_lt(a, b),
        !crate::tps::text_lt(b, a),
    ensures
        a == b,
    decreases a.len(),
{
    if a.len() > 0 && b.len() > 0 {
        lemma_text_lt_total(a.drop_first(), b.drop_first());
        vstd::utf8::char_u32_cast(a[0], a[0] as u32);
        vstd::utf8::char_u32_cast(b[0], b[0] as u32);
        assert(a[0] == b[0]);
        assert(a == seq![a[0]] + a.drop_first());
        assert(b == seq![b[0]] + b.drop_first());
    }
}

} // verus!

verus! {

pub open spec fn is_sep(ch: char) -> bool {
    ch == ',' || ch == '/'
}

proof fn lemma_cell_text_shape(x: CellView)
    ensures
        forall|i: int| 0 <= i < crate::tps::cell_text(x).len() ==> !is_sep(#[trigger] crate::tps::cell_text(x)[i]),
        crate::tps::cell_text(x).len() >= 1,
{
    let t = crate::tps::cell_text(x);
    if x.1.len() > 0 {
        let ct = crate::tps::colors_text(x.1);
        assert forall|i: int| 0 <= i < t.len() implies !is_sep(#[trigger] t[i]) by {
            if i < ct.len() {
                assert(t[i] == ct[i]);
            }
        }
    }
}

pub proof fn lemma_cell_text_injective(x: CellView, y: CellView)
    requires
        crate::game::cell_wf(x),
        crate::game::cell_wf(y),
        crate::tps::cell_text(x) == crate::tps::cell_text(y),
    ensures
        x == y,
{
    let t = cell_text(x);
    if x.1.len() == 0 || y.1.len() == 0 {
        if x.1.len() > 0 {
            assert(colors_text(x.1)[0] == t[0]);
        }
        if y.1.len() > 0 {
            assert(colors_text(y.1)[0] == t[0]);
        }
        assert(x.1 =~= y.1);
    } else {
        let cx = colors_text(x.1);
        let cy = colors_text(y.1);
        assert(cx[cx.len() - 1] == '1' || cx[cx.len() - 1] == '2');
        assert(cy[cy.len() - 1] == '1' || cy[cy.len() - 1] == '2');
        if x.0 == Piece::Flat {
            assert(t[t.len() - 1] == cx[cx.len() - 1]);
        } else if x.0 == Piece::Wall {
            assert(t[t.len() - 1] == 'S');
        } else {
            assert(t[t.len() - 1] == 'C');
        }
        if y.0 == Piece::Flat {
            assert(t[t.len() - 1] == cy[cy.len() - 1]);
        } else if y.0 == Piece::Wall {
            assert(t[t.len() - 1] == 'S');
        } else {
            assert(t[t.len() - 1] == 'C');
        }
        assert(x.0 == y.0);
        assert(cx.len() == cy.len());
        assert(cx =~= t.subrange(0, cx.len() as int));
        assert(cy =~= t.subrange(0, cy.len() as int));
        assert forall|i: int| 0 <= i < x.1.len() implies x.1[i] == y.1[i] by {
            assert(cx[i] == cy[i]);
        }
        assert(x.1 =~= y.1);
    }
}

proof fn lemma_split_last(a1: Seq<char>, a2: Seq<char>, s: Seq<char>, x: Seq<char>, y: Seq<char>)
    requires
        a1 + s + x == a2 + s + y,
        s.len() == 0 ==> a1.len() == 0 && a2.len() == 0,
        s.len() == 1 && is_sep(s[0]) || s.len() == 0,
        forall|i: int| 0 <= i < x.len() ==> !is_sep(#[trigger] x[i]),
        forall|i: int| 0 <= i < y.len() ==> !is_sep(#[trigger] y[i]),
    ensures
        x == y,
        a1 == a2,
{
    let l = a1 + s + x;
    let r = a2 + s + y;
    if s.len() == 1 {
        if x.len() < y.len() {
            let at = l.len() - x.len() - 1;
            assert(l[at] == s[0]);
            assert(r[at] == y[y.len() - x.len() - 1]);
        } else if y.len() < x.len() {
            let at = r.len() - y.len() - 1;
            assert(r[at] == s[0]);
            assert(l[at] == x[x.len() - y.len() - 1]);
        }
    }
    assert(x =~= l.subrange(l.len() - x.len(), l.len() as int));
    assert(y =~= r.subrange(r.len() - y.len(), r.len() as int));
    assert(a1 =~= l.subrange(0, a1.len() as int));
    assert(a2 =~= r.subrange(0, a2.len() as int));
}

proof fn lemma_board_text_injective(c1: Seq<CellView>, c2: Seq<CellView>, n: int, p: nat)
    requires
        n > 0,
        p <= n * n,
        c1.len() == n * n,
        c2.len() == n * n,
        forall|i: int| 0 <= i < c1.len() ==> crate::game::cell_wf(#[trigger] c1[i]),
        forall|i: int| 0 <= i < c2.len() ==> crate::game::cell_wf(#[trigger] c2[i]),
        crate::tps::board_text(c1, n, p) == crate::tps::board_text(c2, n, p),
    ensures
        forall|q: int| 0 <= q < p ==> c1[crate::tps::written_index(n, q)] == c2[#[trigger] crate::tps::written_index(n, q)],
    decreases p,
{
    if p > 0 {
        let w = written_index(n, p - 1);
        crate::tps::lemma_written_index(n, p - 1);
        lemma_cell_text_shape(c1[w]);
        lemma_cell_text_shape(c2[w]);
        lemma_split_last(board_text(c1, n, (p - 1) as nat), board_text(c2, n, (p - 1) as nat), separator(n, p - 1),
            cell_text(c1[w]), cell_text(c2[w]));
        lemma_cell_text_injective(c1[w], c2[w]);
        lemma_board_text_injective(c1, c2, n, (p - 1) as nat);
    }
}

proof fn lemma_tps_text_injective(a: GameView, b: GameView)
    requires
        a.wf(),
        b.wf(),
        b == (GameView { cells: b.cells, ..a }),
        crate::tps::plain_text(a) == crate::tps::plain_text(b),
    ensures
        a == b,
{
    let n = a.size;
    let ta = board_text(a.cells, n, (n * n) as nat);
    let tb = board_text(b.cells, n, (n * n) as nat);
    let tail = seq![' ', crate::tps::color_char(a.to_move), ' '] + crate::tps::number_text((1 + a.ply / 2) as nat);
    assert(crate::tps::plain_text(a) == ta + tail);
    assert(crate::tps::plain_text(b) == tb + tail);
    assert(ta =~= (ta + tail).subrange(0, ta.len() as int));
    assert(tb =~= (tb + tail).subrange(0, tb.len() as int));
    lemma_board_text_injective(a.cells, b.cells, n, (n * n) as nat);
    assert forall|i: int| 0 <= i < n * n implies a.cells[i] == b.cells[i] by {
        crate::tps::lemma_written_index(n, i);
        let q = written_index(n, i);
        assert(a.cells[written_index(n, q)] == b.cells[written_index(n, q)]);
    }
    assert(a.cells =~= b.cells);
}

/// Canonical idempotence: the canonical form of a canonical form is itself.
pub proof fn lemma_canonical_idempotent(v: GameView, r: GameView, r2: GameView)
    requires
        v.wf(),
        is_canonical_of(r, v),
        is_canonical_of(r2, r),
    ensures
        r2 == r,
{
    let k = choose|k: int| 0 <= k < 8 && r == #[trigger] sym_game(v, k);
    let j = choose|j: int| 0 <= j < 8 && r2 == #[trigger] sym_game(r, j);
    lemma_sym_cells_compose(v.cells, v.size, k, j);
    let l = after(j, k);
    assert(r2 == sym_game(v, l));
    assert(!text_lt(tps_text(sym_game(v, l)), tps_text(r)));
    lemma_sym_cells_identity(r.cells, r.size);
    assert(sym_game(r, 0) == r);
    assert(!text_lt(tps_text(sym_game(r, 0)), tps_text(r2)));
    lemma_text_lt_total(tps_text(r), tps_text(r2));
    lemma_tps_round_trip(r);
    lemma_tps_round_trip(r2);
    lemma_tps_text_injective(r, r2);
}

} // verus!

verus! {

/// No `x` in `s` is followed by a run length.
pub open spec fn no_runs(s: Seq<char>) -> bool {
    forall|i: int| 0 <= i < s.len() - 1 && s[i] == 'x' ==> crate::notation::count_of(#[trigger] s[i + 1]) is None
}

pub proof fn lemma_expanded_no_runs(s: Seq<char>)
    requires
        no_runs(s),
    ensures
        crate::tps::expanded(s) == s,
    decreases s.len(),
{
    if s.len() > 0 {
        let rest = s.drop_first();
        assert(no_runs(rest)) by {
            assert forall|i: int| 0 <= i < rest.len() - 1 && rest[i] == 'x' implies crate::notation::count_of(
                #[trigger] rest[i + 1],
            ) is None by {
                assert(s[i + 1] == 'x');
                assert(rest[i + 1] == s[i + 2]);
            }
        }
        lemma_expanded_no_runs(rest);
        if s.len() >= 2 && s[0] == 'x' {
            assert(crate::notation::count_of(s[1]) is None);
        }
        assert(s == seq![s[0]] + rest);
    }
}

/// Characters that stand in a square's text.
pub open spec fn cell_char(ch: char) -> bool {
    ch == 'x' || ch == '1' || ch == '2' || ch == 'S' || ch == 'C'
}

proof fn lemma_cell_text_chars(x: CellView)
    ensures
        forall|i: int| 0 <= i < cell_text(x).len() ==> cell_char(#[trigger] cell_text(x)[i]),
        cell_text(x).len() == 1 || forall|i: int| 0 <= i < cell_text(x).len() ==> cell_text(x)[i] != 'x',
{
    let t = cell_text(x);
    if x.1.len() > 0 {
        let ct = colors_text(x.1);
        assert forall|i: int| 0 <= i < t.len() implies cell_char(#[trigger] t[i]) && t[i] != 'x' by {
            if i < ct.len() {
                assert(t[i] == ct[i]);
            }
        }
    }
}

/// The board text: squares of `x`, colours and piece letters, split by `,` and `/`, and
/// each `x` standing alone.
proof fn lemma_board_text_shape(cells: Seq<CellView>, n: int, p: nat)
    requires
        n > 0,
        p <= n * n,
        cells.len() == n * n,
    ensures
        forall|i: int| 0 <= i < board_text(cells, n, p).len() ==> cell_char(#[trigger] board_text(cells, n, p)[i]) || is_sep(board_text(cells, n, p)[i]),
        forall|i: int| 0 <= i < board_text(cells, n, p).len() - 1 && board_text(cells, n, p)[i] == 'x' ==> is_sep(#[trigger] board_text(cells, n, p)[i + 1]),
        p > 0 ==> board_text(cells, n, p).len() > 0,
    decreases p,
{
    if p > 0 {
        lemma_board_text_shape(cells, n, (p - 1) as nat);
        let a = board_text(cells, n, (p - 1) as nat);
        let s = separator(n, p - 1);
        crate::tps::lemma_written_index(n, p - 1);
        let c = cell_text(cells[written_index(n, p - 1)]);
        lemma_cell_text_chars(cells[written_index(n, p - 1)]);
        let t = a + s + c;
        assert(t == board_text(cells, n, p));
        assert(p - 1 > 0 ==> s.len() == 1 && is_sep(s[0]));
        assert(p - 1 == 0 ==> a.len() == 0 && s.len() == 0);
        assert forall|i: int| 0 <= i < t.len() implies cell_char(#[trigger] t[i]) || is_sep(t[i]) by {
            if i < a.len() {
                assert(t[i] == a[i]);
            } else if i < a.len() + s.len() {
                assert(t[i] == s[i - a.len()]);
            } else {
                assert(t[i] == c[i - a.len() - s.len()]);
            }
        }
        assert forall|i: int| 0 <= i < t.len() - 1 && t[i] == 'x' implies is_sep(#[trigger] t[i + 1]) by {
            if i < a.len() - 1 {
                assert(t[i] == a[i]);
                assert(t[i + 1] == a[i + 1]);
            } else if i == a.len() - 1 {
                assert(t[i + 1] == s[0]);
            } else if i < a.len() + s.len() {
                assert(t[i] == s[i - a.len()]);
            } else {
                assert(t[i] == c[i - a.len() - s.len()]);
                assert(t[i + 1] == c[i + 1 - a.len() - s.len()]);
            }
        }
    }
}

proof fn lemma_number_text_digits(k: nat)
    ensures
        forall|i: int| 0 <= i < crate::tps::number_text(k).len() ==> 48 <= crate::notation::code(#[trigger] crate::tps::number_text(k)[i]) <= 57,
        crate::tps::number_text(k).len() >= 1,
        k >= 10 ==> crate::tps::number_text(k).len() >= 2,
        k < 10 ==> crate::tps::number_text(k).len() == 1,
    decreases k,
{
    if k >= 10 {
        lemma_number_text_digits(k / 10);
    }
}

proof fn lemma_number_text_injective(a: nat, b: nat)
    requires
        crate::tps::number_text(a) == crate::tps::number_text(b),
    ensures
        a == b,
    decreases a,
{
    lemma_number_text_digits(a);
    lemma_number_text_digits(b);
    let t = crate::tps::number_text(a);
    if a >= 10 && b >= 10 {
        let ha = crate::tps::number_text(a / 10);
        let hb = crate::tps::number_text(b / 10);
        assert(ha =~= t.subrange(0, t.len() - 1));
        assert(hb =~= t.subrange(0, t.len() - 1));
        lemma_number_text_injective(a / 10, b / 10);
        assert(crate::notation::code(t[t.len() - 1]) == 48 + a % 10);
        assert(crate::notation::code(t[t.len() - 1]) == 48 + b % 10);
    } else {
        assert(crate::notation::code(t[0]) == 48 + a);
    }
}

pub proof fn lemma_number_text_injective_pub(a: nat, b: nat)
    requires
        crate::tps::number_text(a) == crate::tps::number_text(b),
    ensures
        a == b,
{
    lemma_number_text_injective(a, b);
}

/// A game that can arise in play: well formed, every piece in hand or on the board,
/// and White to move exactly on even plies.
pub open spec fn consistent(v: GameView) -> bool {
    &&& v.wf()
    &&& conserved(v)
    &&& v.ply >= 0
    &&& (v.ply % 2 == 0 <==> v.to_move == Color::White)
}

/// A new game is consistent, and every legal move keeps a game consistent.
pub proof fn lemma_consistent_play(v: GameView, m: MoveModel)
    requires
        consistent(v),
        play_error(v, m) is None,
    ensures
        consistent(apply(v, m)),
        consistent(start_view(v.size, v.half_komi)),
{
    lemma_play_conserves(v, m);
    lemma_start_conserved(v.size, v.half_komi);
    lemma_apply_wf(v, m);
    assert(start_view(v.size, v.half_komi).wf());
}

proof fn lemma_apply_wf(v: GameView, m: MoveModel)
    requires
        v.wf(),
        play_error(v, m) is None,
    ensures
        apply(v, m).wf(),
{
    let n = v.size;
    match m {
        MoveModel::Place(sq, p) => {
            lemma_index(n, sq.row as int, sq.column as int);
        },
        MoveModel::Spread(sq, d, drops) => {
            let i = v.index(sq.row as int, sq.column as int);
            lemma_index(n, sq.row as int, sq.column as int);
            let cell = v.cells[i];
            let h = cell.1.len() as int;
            let k = drop_sum(drops);
            lemma_drop_sum_len(drops);
            let left = v.cells.update(i, (Piece::Flat, cell.1.subrange(0, h - k)));
            lemma_run_wf(left, n, sq.row as int, sq.column as int, d, cell.1.subrange(h - k, h), drops, cell.0);
        },
    }
}

proof fn lemma_run_wf(cells: Seq<CellView>, n: int, row: int, column: int, d: Direction, carried: Seq<Color>, drops: Seq<u8>, piece: Piece)
    requires
        cells.len() == n * n,
        forall|i: int| 0 <= i < cells.len() ==> crate::game::cell_wf(#[trigger] cells[i]),
        on(n, (row, column)),
        on(n, step_by(row, column, d, drops.len() as int)),
        forall|i: int| 0 <= i < drops.len() ==> #[trigger] drops[i] >= 1,
        carried.len() == drop_sum(drops),
    ensures
        drop_run(cells, n, row, column, d, carried, drops, piece).len() == n * n,
        forall|i: int| 0 <= i < n * n ==> crate::game::cell_wf(#[trigger] drop_run(cells, n, row, column, d, carried, drops, piece)[i]),
    decreases drops.len(),
{
    if drops.len() > 0 {
        let next = step_by(row, column, d, 1);
        let i = next.0 * n + next.1;
        let k = drops[0] as int;
        let top = if drops.len() == 1 { piece } else { Piece::Flat };
        let rest = drops.subrange(1, drops.len() as int);
        lemma_drop_sum_first(drops);
        lemma_drop_sum_nonneg(rest);
        lemma_index(n, next.0, next.1);
        let x = (top, cells[i].1 + carried.subrange(0, k));
        let u = cells.update(i, x);
        assert(x.1.len() > 0);
        assert(step_by(next.0, next.1, d, rest.len() as int) == step_by(row, column, d, drops.len() as int));
        assert(forall|j: int| 0 <= j < rest.len() ==> #[trigger] rest[j] == drops[j + 1]);
        lemma_run_wf(u, n, next.0, next.1, d, carried.subrange(k, carried.len() as int), rest, piece);
    }
}

} // verus!

verus! {

pub proof fn lemma_tps_no_runs(v: GameView)
    requires
        v.wf(),
    ensures
        no_runs(plain_text(v)),
{
    let n = v.size;
    let b = board_text(v.cells, n, (n * n) as nat);
    let num = crate::tps::number_text((1 + v.ply / 2) as nat);
    let tail = seq![' ', crate::tps::color_char(v.to_move), ' '] + num;
    let t = plain_text(v);
    assert(t == b + tail);
    lemma_board_text_shape(v.cells, n, (n * n) as nat);
    lemma_number_text_digits((1 + v.ply / 2) as nat);
    assert forall|i: int| 0 <= i < t.len() - 1 && t[i] == 'x' implies crate::notation::count_of(#[trigger] t[i + 1]) is None by {
        if i < b.len() - 1 {
            assert(t[i] == b[i]);
            assert(t[i + 1] == b[i + 1]);
        } else if i == b.len() - 1 {
            assert(t[i + 1] == ' ');
        } else if i < b.len() + 3 {
            assert(t[i] == tail[i - b.len()]);
        } else {
            assert(t[i] == num[i - b.len() - 3]);
        }
    }
}

/// Reading back the position text of a consistent game gives that game, whenever the
/// reading succeeds in a consistent game; the text does not hold the reversible plies.
pub proof fn lemma_tps_read_back(v: GameView, w: GameView)
    requires
        consistent(v),
        consistent(w),
        w.size == v.size,
        w.half_komi == v.half_komi,
        plain_text(w) == crate::tps::expanded(plain_text(v)),
    ensures
        w == (GameView { reversible_plies: w.reversible_plies, ..v }),
{
    let n = v.size;
    lemma_tps_no_runs(v);
    lemma_expanded_no_runs(plain_text(v));
    let bv = board_text(v.cells, n, (n * n) as nat);
    let bw = board_text(w.cells, n, (n * n) as nat);
    let tv = seq![' ', crate::tps::color_char(v.to_move), ' '] + crate::tps::number_text((1 + v.ply / 2) as nat);
    let tw = seq![' ', crate::tps::color_char(w.to_move), ' '] + crate::tps::number_text((1 + w.ply / 2) as nat);
    let t = plain_text(v);
    assert(t == bv + tv);
    assert(t == bw + tw);
    lemma_board_text_shape(v.cells, n, (n * n) as nat);
    lemma_board_text_shape(w.cells, n, (n * n) as nat);
    if bw.len() < bv.len() {
        assert(t[bw.len() as int] == tw[0]);
        assert(t[bw.len() as int] == bv[bw.len() as int]);
    } else if bv.len() < bw.len() {
        assert(t[bv.len() as int] == tv[0]);
        assert(t[bv.len() as int] == bw[bv.len() as int]);
    }
    assert(bv =~= t.subrange(0, bv.len() as int));
    assert(bw =~= t.subrange(0, bw.len() as int));
    assert(tv =~= t.subrange(bv.len() as int, t.len() as int));
    assert(tw =~= t.subrange(bw.len() as int, t.len() as int));
    lemma_board_text_injective(v.cells, w.cells, n, (n * n) as nat);
    assert forall|i: int| 0 <= i < n * n implies v.cells[i] == w.cells[i] by {
        crate::tps::lemma_written_index(n, i);
        let q = written_index(n, i);
        assert(v.cells[written_index(n, q)] == w.cells[written_index(n, q)]);
    }
    assert(v.cells =~= w.cells);
    assert(tv[1] == tw[1]);
    assert(v.to_move == w.to_move);
    assert(crate::tps::number_text((1 + v.ply / 2) as nat) =~= tv.subrange(3, tv.len() as int));
    assert(crate::tps::number_text((1 + w.ply / 2) as nat) =~= tw.subrange(3, tw.len() as int));
    lemma_number_text_injective((1 + v.ply / 2) as nat, (1 + w.ply / 2) as nat);
    assert(v.ply / 2 == w.ply / 2);
    assert(v.ply % 2 == w.ply % 2);
    assert(v.ply == w.ply);
    assert(v.white.stones == w.white.stones && v.white.caps == w.white.caps);
    assert(v.black.stones == w.black.stones && v.black.caps == w.black.caps);
    assert(v.white == w.white);
    assert(v.black == w.black);
}

} // verus!

verus! {

proof fn lemma_color_count_total(s: Seq<Color>)
    ensures
        color_count(s, Color::White) + color_count(s, Color::Black) == s.len(),
        color_count(s, Color::White) >= 0,
        color_count(s, Color::Black) >= 0,
    decreases s.len(),
{
    if s.len() > 0 {
        lemma_color_count_total(s.drop_last());
    }
}

proof fn lemma_pieces_at_least(cells: Seq<CellView>, i: int, c: Color)
    requires
        0 <= i < cells.len(),
    ensures
        pieces_on_board(cells, c) >= color_count(cells[i].1, c),
    decreases cells.len(),
{
    lemma_pieces_nonneg(cells.drop_last(), c);
    lemma_color_count_total(cells.last().1);
    if i < cells.len() - 1 {
        lemma_pieces_at_least(cells.drop_last(), i, c);
    }
}

proof fn lemma_pieces_nonneg(cells: Seq<CellView>, c: Color)
    ensures
        pieces_on_board(cells, c) >= 0,
    decreases cells.len(),
{
    if cells.len() > 0 {
        lemma_pieces_nonneg(cells.drop_last(), c);
        lemma_color_count_total(cells.last().1);
    }
}

proof fn lemma_caps_nonneg(cells: Seq<CellView>, c: Color)
    ensures
        caps_on_board(cells, c) >= 0,
    decreases cells.len(),
{
    if cells.len() > 0 {
        lemma_caps_nonneg(cells.drop_last(), c);
    }
}

/// In a consistent game no stack is taller than all the pieces of both players.
pub proof fn lemma_stack_heights(v: GameView)
    requires
        consistent(v),
    ensures
        forall|i: int| 0 <= i < v.cells.len() ==> (#[trigger] v.cells[i]).1.len() <= 104,
        pieces_on_board(v.cells, Color::White) - caps_on_board(v.cells, Color::White) <= initial_reserves(v.size).stones,
        pieces_on_board(v.cells, Color::Black) - caps_on_board(v.cells, Color::Black) <= initial_reserves(v.size).stones,
        caps_on_board(v.cells, Color::White) <= initial_reserves(v.size).caps,
        caps_on_board(v.cells, Color::Black) <= initial_reserves(v.size).caps,
{
    lemma_caps_nonneg(v.cells, Color::White);
    lemma_caps_nonneg(v.cells, Color::Black);
    assert forall|i: int| 0 <= i < v.cells.len() implies (#[trigger] v.cells[i]).1.len() <= 104 by {
        lemma_pieces_at_least(v.cells, i, Color::White);
        lemma_pieces_at_least(v.cells, i, Color::Black);
        lemma_color_count_total(v.cells[i].1);
    }
}

} // verus!

verus! {

/// Two boards with the same board text are the same board.
pub proof fn lemma_board_cells_equal(c1: Seq<CellView>, c2: Seq<CellView>, n: int)
    requires
        n > 0,
        c1.len() == n * n,
        c2.len() == n * n,
        forall|i: int| 0 <= i < c1.len() ==> crate::game::cell_wf(#[trigger] c1[i]),
        forall|i: int| 0 <= i < c2.len() ==> crate::game::cell_wf(#[trigger] c2[i]),
        board_text(c1, n, (n * n) as nat) == board_text(c2, n, (n * n) as nat),
    ensures
        c1 == c2,
{
    lemma_board_text_injective(c1, c2, n, (n * n) as nat);
    assert forall|i: int| 0 <= i < n * n implies c1[i] == c2[i] by {
        crate::tps::lemma_written_index(n, i);
        let q = written_index(n, i);
        assert(c1[written_index(n, q)] == c2[written_index(n, q)]);
    }
    assert(c1 =~= c2);
}

} // verus!

verus! {

proof fn lemma_no_runs_suffix(s: Seq<char>, a: int)
    requires
        no_runs(s),
        0 <= a <= s.len(),
    ensures
        no_runs(s.subrange(a, s.len() as int)),
{
    let t = s.subrange(a, s.len() as int);
    assert forall|i: int| 0 <= i < t.len() - 1 && t[i] == 'x' implies crate::notation::count_of(#[trigger] t[i + 1]) is None by {
        assert(t[i] == s[a + i]);
        assert(t[i + 1] == s[a + i + 1]);
    }
}

proof fn lemma_empty_run_front(m: nat)
    requires
        m >= 1,
    ensures
        empty_run(m + 1) == seq!['x', ','] + empty_run(m),
    decreases m,
{
    if m >= 2 {
        lemma_empty_run_front((m - 1) as nat);
        assert(empty_run(m + 1) == empty_run(m) + seq![',', 'x']);
        assert(empty_run(m) == empty_run((m - 1) as nat) + seq![',', 'x']);
        assert(empty_run(m + 1) =~= seq!['x', ','] + empty_run(m));
    } else {
        assert(empty_run(1) == seq!['x']);
        assert(empty_run(2) == empty_run(1) + seq![',', 'x']);
        assert(empty_run(2) =~= seq!['x', ','] + empty_run(1));
    }
}

proof fn lemma_run_text(s: Seq<char>, j: int, cap: nat)
    requires
        0 <= j < s.len(),
        s[j] == 'x',
    ensures
        run_at(s, j, cap) >= 1,
        run_at(s, j, cap) <= if cap >= 1 { cap } else { 1 },
        j + 2 * run_at(s, j, cap) - 1 <= s.len(),
        s.subrange(j, j + 2 * run_at(s, j, cap) - 1) == empty_run(run_at(s, j, cap)),
    decreases cap,
{
    let k = run_at(s, j, cap);
    if k == 1 {
        assert(s.subrange(j, j + 1) =~= seq!['x']);
    } else {
        lemma_run_text(s, j + 2, (cap - 1) as nat);
        let m = run_at(s, j + 2, (cap - 1) as nat);
        lemma_empty_run_front(m);
        assert(s.subrange(j, j + 2 * k - 1) =~= seq![s[j], s[j + 1]] + s.subrange(j + 2, j + 2 + 2 * m - 1));
    }
}

proof fn lemma_expand_compressed(s: Seq<char>, i: int)
    requires
        no_runs(s),
        0 <= i <= s.len(),
    ensures
        expanded(compressed_from(s, i)) == s.subrange(i, s.len() as int),
    decreases s.len() - i,
{
    if i < s.len() {
        let rest_all = s.subrange(i, s.len() as int);
        if s[i] == 'x' {
            let k = run_at(s, i, 8);
            lemma_run_text(s, i, 8);
            if k >= 2 && i + 2 * k - 1 <= s.len() {
                let c = compressed_from(s, i + 2 * k - 1);
                lemma_expand_compressed(s, i + 2 * k - 1);
                let w = seq!['x', crate::notation::digit_char(k as int)] + c;
                assert(crate::notation::count_of(w[1]) == Some(k as u8));
                assert(w.subrange(2, w.len() as int) =~= c);
                assert(expanded(w) == empty_run(k) + expanded(c));
                assert(rest_all =~= s.subrange(i, i + 2 * k - 1) + s.subrange(i + 2 * k - 1, s.len() as int));
            } else {
                let c = compressed_from(s, i + 1);
                lemma_expand_compressed(s, i + 1);
                let w = seq!['x'] + c;
                if i + 1 < s.len() {
                    lemma_compressed_head(s, i + 1);
                    assert(w[1] == s[i + 1]);
                }
                assert(w.drop_first() =~= c);
                assert(rest_all =~= seq![s[i]] + s.subrange(i + 1, s.len() as int));
            }
        } else {
            let c = compressed_from(s, i + 1);
            lemma_expand_compressed(s, i + 1);
            let w = seq![s[i]] + c;
            assert(w.drop_first() =~= c);
            assert(rest_all =~= seq![s[i]] + s.subrange(i + 1, s.len() as int));
        }
    } else {
        assert(s.subrange(i, s.len() as int).len() == 0);
    }
}

proof fn lemma_compressed_head(s: Seq<char>, i: int)
    requires
        0 <= i < s.len(),
    ensures
        compressed_from(s, i).len() > 0,
        compressed_from(s, i)[0] == s[i],
{
}

/// Reading back the position text of a game: with its runs of empty squares written
/// out again it is the game's text square by square.
pub proof fn lemma_tps_round_trip(v: GameView)
    requires
        v.wf(),
    ensures
        expanded(tps_text(v)) == plain_text(v),
{
    lemma_tps_no_runs(v);
    lemma_expand_compressed(plain_text(v), 0);
    assert(plain_text(v).subrange(0, plain_text(v).len() as int) == plain_text(v));
}

} // verus!
