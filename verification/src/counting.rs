use vstd::prelude::*;

use crate::hex_tile::HexTile;

verus! {

/// 1 when the tile holds a mine, 0 otherwise.
pub open spec fn mine_ind(t: HexTile) -> int {
    if t.mine {
        1
    } else {
        0
    }
}

/// 1 when the tile has been revealed, 0 otherwise.
pub open spec fn revealed_ind(t: HexTile) -> int {
    if t.is_revealed() {
        1
    } else {
        0
    }
}

/// Number of mines in one column of tiles.
pub open spec fn col_mines(col: Seq<HexTile>) -> int
    decreases col.len(),
{
    if col.len() == 0 {
        0
    } else {
        mine_ind(col[0]) + col_mines(col.drop_first())
    }
}

/// Number of mines on the whole board.
pub open spec fn total_mines(g: Seq<Seq<HexTile>>) -> int
    decreases g.len(),
{
    if g.len() == 0 {
        0
    } else {
        col_mines(g[0]) + total_mines(g.drop_first())
    }
}

/// Number of revealed tiles in one column.
pub open spec fn col_revealed(col: Seq<HexTile>) -> int
    decreases col.len(),
{
    if col.len() == 0 {
        0
    } else {
        revealed_ind(col[0]) + col_revealed(col.drop_first())
    }
}

/// Number of revealed tiles on the whole board.
pub open spec fn total_revealed(g: Seq<Seq<HexTile>>) -> int
    decreases g.len(),
{
    if g.len() == 0 {
        0
    } else {
        col_revealed(g[0]) + total_revealed(g.drop_first())
    }
}

/// Replacing one tile of a column shifts its mine count by the difference
/// of the two tiles' indicators.
pub proof fn lemma_col_mines_update(col: Seq<HexTile>, j: int, t: HexTile)
    requires
        0 <= j < col.len(),
    ensures
        col_mines(col.update(j, t)) == col_mines(col) - mine_ind(col[j]) + mine_ind(t),
    decreases col.len(),
{
    let upd = col.update(j, t);
    if j == 0 {
        assert(upd.drop_first() =~= col.drop_first());
    } else {
        assert(upd.drop_first() =~= col.drop_first().update(j - 1, t));
        lemma_col_mines_update(col.drop_first(), j - 1, t);
    }
}

/// Replacing one tile of the board shifts its mine count by the difference
/// of the two tiles' indicators.
pub proof fn lemma_total_mines_update(g: Seq<Seq<HexTile>>, x: int, y: int, t: HexTile)
    requires
        0 <= x < g.len(),
        0 <= y < g[x].len(),
    ensures
        total_mines(g.update(x, g[x].update(y, t))) == total_mines(g) - mine_ind(g[x][y])
            + mine_ind(t),
    decreases g.len(),
{
    let upd = g.update(x, g[x].update(y, t));
    if x == 0 {
        assert(upd.drop_first() =~= g.drop_first());
        lemma_col_mines_update(g[0], y, t);
    } else {
        assert(upd.drop_first() =~= g.drop_first().update(x - 1, g[x].update(y, t)));
        lemma_total_mines_update(g.drop_first(), x - 1, y, t);
    }
}

/// Replacing one tile of a column shifts its revealed count by the
/// difference of the two tiles' indicators.
pub proof fn lemma_col_revealed_update(col: Seq<HexTile>, j: int, t: HexTile)
    requires
        0 <= j < col.len(),
    ensures
        col_revealed(col.update(j, t)) == col_revealed(col) - revealed_ind(col[j]) + revealed_ind(
            t,
        ),
    decreases col.len(),
{
    let upd = col.update(j, t);
    if j == 0 {
        assert(upd.drop_first() =~= col.drop_first());
    } else {
        assert(upd.drop_first() =~= col.drop_first().update(j - 1, t));
        lemma_col_revealed_update(col.drop_first(), j - 1, t);
    }
}

/// Replacing one tile of the board shifts its revealed count by the
/// difference of the two tiles' indicators.
pub proof fn lemma_total_revealed_update(g: Seq<Seq<HexTile>>, x: int, y: int, t: HexTile)
    requires
        0 <= x < g.len(),
        0 <= y < g[x].len(),
    ensures
        total_revealed(g.update(x, g[x].update(y, t))) == total_revealed(g) - revealed_ind(
            g[x][y],
        ) + revealed_ind(t),
    decreases g.len(),
{
    let upd = g.update(x, g[x].update(y, t));
    if x == 0 {
        assert(upd.drop_first() =~= g.drop_first());
        lemma_col_revealed_update(g[0], y, t);
    } else {
        assert(upd.drop_first() =~= g.drop_first().update(x - 1, g[x].update(y, t)));
        lemma_total_revealed_update(g.drop_first(), x - 1, y, t);
    }
}

/// A column's mine count lies between 0 and its length.
pub proof fn lemma_col_mines_bounds(col: Seq<HexTile>)
    ensures
        0 <= col_mines(col) <= col.len(),
    decreases col.len(),
{
    if col.len() > 0 {
        lemma_col_mines_bounds(col.drop_first());
    }
}

/// A column's revealed count lies between 0 and its length.
pub proof fn lemma_col_revealed_bounds(col: Seq<HexTile>)
    ensures
        0 <= col_revealed(col) <= col.len(),
    decreases col.len(),
{
    if col.len() > 0 {
        lemma_col_revealed_bounds(col.drop_first());
    }
}

/// The board's revealed count lies between 0 and the number of tiles.
pub proof fn lemma_total_revealed_bounds(g: Seq<Seq<HexTile>>, h: int)
    requires
        forall|i: int| 0 <= i < g.len() ==> (#[trigger] g[i]).len() == h,
    ensures
        0 <= total_revealed(g) <= g.len() * h,
    decreases g.len(),
{
    if g.len() > 0 {
        lemma_col_revealed_bounds(g[0]);
        lemma_total_revealed_bounds(g.drop_first(), h);
        assert(g.len() * h == (g.len() - 1) * h + h) by (nonlinear_arith);
    }
}

/// A column with no mines has no mined tile.
pub proof fn lemma_col_mines_zero(col: Seq<HexTile>)
    requires
        col_mines(col) == 0,
    ensures
        forall|j: int| 0 <= j < col.len() ==> !(#[trigger] col[j]).mine,
    decreases col.len(),
{
    if col.len() > 0 {
        lemma_col_mines_bounds(col.drop_first());
        lemma_col_mines_zero(col.drop_first());
        assert forall|j: int| 0 <= j < col.len() implies !(#[trigger] col[j]).mine by {
            if j > 0 {
                assert(col[j] == col.drop_first()[j - 1]);
            }
        }
    }
}

/// A board with no mines has no mined tile.
pub proof fn lemma_total_mines_zero(g: Seq<Seq<HexTile>>)
    requires
        total_mines(g) == 0,
    ensures
        forall|x: int, y: int|
            0 <= x < g.len() && 0 <= y < g[x].len() ==> !(#[trigger] g[x][y]).mine,
    decreases g.len(),
{
    if g.len() > 0 {
        lemma_col_mines_bounds(g[0]);
        lemma_total_mines_bounds_raw(g.drop_first());
        lemma_col_mines_zero(g[0]);
        lemma_total_mines_zero(g.drop_first());
        assert forall|x: int, y: int|
            0 <= x < g.len() && 0 <= y < g[x].len() implies !(#[trigger] g[x][y]).mine by {
            if x > 0 {
                assert(g[x] == g.drop_first()[x - 1]);
            }
        }
    }
}

/// The board's mine count is never negative, whatever the column lengths.
proof fn lemma_total_mines_bounds_raw(g: Seq<Seq<HexTile>>)
    ensures
        total_mines(g) >= 0,
    decreases g.len(),
{
    if g.len() > 0 {
        lemma_col_mines_bounds(g[0]);
        lemma_total_mines_bounds_raw(g.drop_first());
    }
}

/// Two boards of the same shape whose tiles agree on `mine` everywhere have
/// the same mine count.
pub proof fn lemma_total_mines_same(g1: Seq<Seq<HexTile>>, g2: Seq<Seq<HexTile>>)
    requires
        g1.len() == g2.len(),
        forall|x: int| 0 <= x < g1.len() ==> (#[trigger] g1[x]).len() == g2[x].len(),
        forall|x: int, y: int|
            0 <= x < g1.len() && 0 <= y < g1[x].len() ==> (#[trigger] g1[x][y]).mine
                == g2[x][y].mine,
    ensures
        total_mines(g1) == total_mines(g2),
    decreases g1.len(),
{
    if g1.len() > 0 {
        lemma_col_mines_same(g1[0], g2[0]);
        assert(forall|x: int|
            1 <= x < g1.len() ==> g1[x] == #[trigger] g1.drop_first()[x - 1]);
        assert(forall|x: int|
            1 <= x < g2.len() ==> g2[x] == #[trigger] g2.drop_first()[x - 1]);
        lemma_total_mines_same(g1.drop_first(), g2.drop_first());
    }
}

/// Two boards of the same shape whose tiles agree on being revealed have
/// the same revealed count.
pub proof fn lemma_total_revealed_same(g1: Seq<Seq<HexTile>>, g2: Seq<Seq<HexTile>>)
    requires
        g1.len() == g2.len(),
        forall|x: int| 0 <= x < g1.len() ==> (#[trigger] g1[x]).len() == g2[x].len(),
        forall|x: int, y: int|
            0 <= x < g1.len() && 0 <= y < g1[x].len() ==> (#[trigger] g1[x][y]).is_revealed()
                == g2[x][y].is_revealed(),
    ensures
        total_revealed(g1) == total_revealed(g2),
    decreases g1.len(),
{
    if g1.len() > 0 {
        lemma_col_revealed_same(g1[0], g2[0]);
        assert(forall|x: int|
            1 <= x < g1.len() ==> g1[x] == #[trigger] g1.drop_first()[x - 1]);
        assert(forall|x: int|
            1 <= x < g2.len() ==> g2[x] == #[trigger] g2.drop_first()[x - 1]);
        lemma_total_revealed_same(g1.drop_first(), g2.drop_first());
    }
}

/// Two columns of the same length whose tiles agree on being revealed have
/// the same revealed count.
pub proof fn lemma_col_revealed_same(c1: Seq<HexTile>, c2: Seq<HexTile>)
    requires
        c1.len() == c2.len(),
        forall|j: int|
            0 <= j < c1.len() ==> (#[trigger] c1[j]).is_revealed() == c2[j].is_revealed(),
    ensures
        col_revealed(c1) == col_revealed(c2),
    decreases c1.len(),
{
    if c1.len() > 0 {
        assert(forall|j: int| 1 <= j < c1.len() ==> c1[j] == #[trigger] c1.drop_first()[j - 1]);
        assert(forall|j: int| 1 <= j < c2.len() ==> c2[j] == #[trigger] c2.drop_first()[j - 1]);
        lemma_col_revealed_same(c1.drop_first(), c2.drop_first());
    }
}

/// Two columns of the same length whose tiles agree on `mine` have the same
/// mine count.
pub proof fn lemma_col_mines_same(c1: Seq<HexTile>, c2: Seq<HexTile>)
    requires
        c1.len() == c2.len(),
        forall|j: int| 0 <= j < c1.len() ==> (#[trigger] c1[j]).mine == c2[j].mine,
    ensures
        col_mines(c1) == col_mines(c2),
    decreases c1.len(),
{
    if c1.len() > 0 {
        assert(forall|j: int| 1 <= j < c1.len() ==> c1[j] == #[trigger] c1.drop_first()[j - 1]);
        assert(forall|j: int| 1 <= j < c2.len() ==> c2[j] == #[trigger] c2.drop_first()[j - 1]);
        lemma_col_mines_same(c1.drop_first(), c2.drop_first());
    }
}

} // verus!
