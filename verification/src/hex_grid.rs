use vstd::prelude::*;

use crate::counting::{
    lemma_total_mines_same, lemma_total_mines_update, lemma_total_revealed_bounds,
    lemma_total_revealed_same, lemma_total_revealed_update, total_mines, total_revealed,
};
use crate::hex_tile::HexTile;

verus! {

/// Outcome of a reveal click.
///
/// - `Revealed(k)`: the click revealed `k` tiles, the clicked one plus every
///   tile the flood-fill cascade uncovered. The caller advances the turn by
///   `k` positions.
/// - `Invalid`: the coordinate was off the board, or the tile was marked or
///   already revealed; no tile changed.
/// - `Mine`: the clicked tile held a mine. It is still revealed and owned,
///   and the caller removes the player from the rotation.
#[derive(Clone, Copy, PartialEq, Eq, Structural, Debug)]
pub enum ClickResult {
    Revealed(usize),
    Invalid,
    Mine,
}

/// Outcome of toggling a mark.
///
/// - `Toggled`: the tile's flag was flipped.
/// - `Invalid`: the coordinate was off the board or the tile was already
///   revealed; nothing changed.
#[derive(Clone, Copy, PartialEq, Eq, Structural, Debug)]
pub enum MarkResult {
    Toggled,
    Invalid,
}

/// A `width × height` board of hex tiles in offset coordinates: column `x`,
/// row `y`, odd rows shifted half a tile to the right.
///
/// Mines are placed lazily by the first reveal click, which is thereby
/// guaranteed never to hit one.
#[derive(Clone)]
pub struct HexGrid {
    /// The tiles, indexed `grid[x][y]`: `grid.len()` columns of equal height.
    pub grid: Vec<Vec<HexTile>>,
    /// False until the first reveal click places the mines.
    pub mines_loaded: bool,
    /// How many mines the first reveal places; strictly between 0 and the
    /// number of tiles.
    pub mine_count: usize,
}

impl HexGrid {
    /// The board as a sequence of columns of tiles.
    pub open spec fn tiles(self) -> Seq<Seq<HexTile>> {
        self.grid@.map_values(|col: Vec<HexTile>| col@)
    }

    /// Number of columns.
    pub open spec fn spec_width(self) -> int {
        self.tiles().len() as int
    }

    /// Number of rows.
    pub open spec fn spec_height(self) -> int {
        self.tiles()[0].len() as int
    }

    /// The tile at column `x`, row `y`.
    pub open spec fn tile_at(self, x: int, y: int) -> HexTile {
        self.tiles()[x][y]
    }

    /// Whether (`x`, `y`) indexes a tile of the board.
    pub open spec fn in_bounds(self, x: int, y: int) -> bool {
        0 <= x < self.spec_width() && 0 <= y < self.spec_height()
    }

    /// Well-formedness: the board is a non-degenerate rectangle whose tile
    /// count fits in `usize`, the mine count is strictly between 0 and the
    /// tile count, and no mine exists before the mines are placed.
    pub open spec fn wf(self) -> bool {
        &&& 1 <= self.spec_width()
        &&& 1 <= self.spec_height()
        &&& self.spec_width() * self.spec_height() <= usize::MAX
        &&& forall|x: int|
            0 <= x < self.spec_width() ==> (#[trigger] self.tiles()[x]).len()
                == self.spec_height()
        &&& 0 < self.mine_count < self.spec_width() * self.spec_height()
        &&& !self.mines_loaded ==> total_mines(self.tiles()) == 0
    }

    /// Builds a `cnt_x × cnt_y` board of hidden tiles with `mine_count`
    /// mines to be placed by the first reveal click.
    pub fn new(cnt_x: usize, cnt_y: usize, mine_count: usize) -> (g: HexGrid)
        requires
            1 <= cnt_x,
            1 <= cnt_y,
            cnt_x * cnt_y <= usize::MAX,
            0 < mine_count < cnt_x * cnt_y,
        ensures
            g.wf(),
            g.spec_width() == cnt_x,
            g.spec_height() == cnt_y,
            g.mine_count == mine_count,
            !g.mines_loaded,
            forall|x: int, y: int|
                g.in_bounds(x, y) ==> #[trigger] g.tile_at(x, y) == HexTile::start(),
    {
        let mut grid: Vec<Vec<HexTile>> = Vec::new();
        for i in 0..cnt_x
            invariant
                grid@.len() == i,
                forall|x: int| 0 <= x < i ==> (#[trigger] grid@[x])@.len() == cnt_y,
                forall|x: int, y: int|
                    0 <= x < i && 0 <= y < cnt_y ==> #[trigger] grid@[x]@[y]
                        == HexTile::start(),
        {
            let mut col: Vec<HexTile> = Vec::new();
            for j in 0..cnt_y
                invariant
                    col@.len() == j,
                    forall|y: int| 0 <= y < j ==> #[trigger] col@[y] == HexTile::start(),
            {
                col.push(HexTile::new());
            }
            grid.push(col);
        }
        let g = HexGrid { grid, mines_loaded: false, mine_count };
        proof {
            lemma_no_mines_zero_total(g.tiles());
        }
        g
    }

    /// Total number of tiles on the board.
    pub fn tile_number(&self) -> (n: usize)
        requires
            self.wf(),
        ensures
            n == self.spec_width() * self.spec_height(),
    {
        self.grid.len() * self.grid[0].len()
    }

    /// Number of mines the board was created with.
    pub fn mine_number(&self) -> (n: usize)
        ensures
            n == self.mine_count,
    {
        self.mine_count
    }

    /// The coordinates of every tile adjacent to (`x`, `y`): up to six of
    /// them, fewer at the board's rim, in a fixed order — same-row left and
    /// right, then the row above, then the row below, diagonal column first.
    pub fn get_neighbours(&self, x: usize, y: usize) -> (res: Vec<(usize, usize)>)
        requires
            self.wf(),
            x < self.spec_width(),
            y < self.spec_height(),
        ensures
            res@ == neighbours_seq(self.spec_width(), self.spec_height(), x as int, y as int),
            res@.len() <= 6,
            res@.no_duplicates(),
            forall|nx: usize, ny: usize|
                res@.contains((nx, ny)) <==> is_neighbour(
                    self.spec_width(),
                    self.spec_height(),
                    x as int,
                    y as int,
                    nx as int,
                    ny as int,
                ),
    {
        proof {
            assert(self.spec_height() <= self.spec_width() * self.spec_height()) by (
            nonlinear_arith)
                requires
                    1 <= self.spec_width(),
                    0 <= self.spec_height(),
            ;
        }
        let size_x = self.grid.len();
        let size_y = self.grid[0].len();
        let mut res: Vec<(usize, usize)> = Vec::new();

        if x > 0 {
            res.push((x - 1, y));
        }
        if x + 1 < size_x {
            res.push((x + 1, y));
        }
        if y > 0 {
            if y % 2 == 0 {
                if x > 0 {
                    res.push((x - 1, y - 1));
                }
                res.push((x, y - 1));
            } else {
                if x + 1 < size_x {
                    res.push((x + 1, y - 1));
                }
                res.push((x, y - 1));
            }
        }
        if y + 1 < size_y {
            if y % 2 == 0 {
                if x > 0 {
                    res.push((x - 1, y + 1));
                }
                res.push((x, y + 1));
            } else {
                if x + 1 < size_x {
                    res.push((x + 1, y + 1));
                }
                res.push((x, y + 1));
            }
        }
        proof {
            reveal(neighbours_seq);
            reveal(band_seq);
            assert(res@ =~= neighbours_seq(
                self.spec_width(),
                self.spec_height(),
                x as int,
                y as int,
            ));
            lemma_neighbours_props(self.spec_width(), self.spec_height(), x as int, y as int);
        }
        res
    }

    /// Counts the mines among the neighbours of (`x`, `y`).
    pub fn count_mines(&self, x: usize, y: usize) -> (res: usize)
        requires
            self.wf(),
            x < self.spec_width(),
            y < self.spec_height(),
        ensures
            res == spec_count_mines(self.tiles(), x as int, y as int),
            res <= 6,
    {
        let w = self.grid.len();
        let h = self.grid[0].len();
        let ns = self.get_neighbours(x, y);
        let mut res: usize = 0;
        let mut i: usize = 0;
        proof {
            assert(ns@.take(0) =~= Seq::<(usize, usize)>::empty());
        }
        while i < ns.len()
            invariant
                self.wf(),
                x < w,
                y < h,
                w == self.spec_width(),
                h == self.spec_height(),
                ns@ == neighbours_seq(w as int, h as int, x as int, y as int),
                forall|nx: usize, ny: usize|
                    ns@.contains((nx, ny)) <==> is_neighbour(
                        w as int,
                        h as int,
                        x as int,
                        y as int,
                        nx as int,
                        ny as int,
                    ),
                i <= ns@.len(),
                res <= i,
                res == seq_mine_sum(self.tiles(), ns@.take(i as int)),
            decreases ns@.len() - i,
        {
            let p = ns[i];
            proof {
                assert(ns@.contains(ns@[i as int]));
                assert(is_neighbour(
                    w as int,
                    h as int,
                    x as int,
                    y as int,
                    p.0 as int,
                    p.1 as int,
                ));
                assert(self.tiles()[p.0 as int].len() == self.spec_height());
            }
            if self.grid[p.0][p.1].mine {
                res = res + 1;
            }
            proof {
                assert(ns@.take(i + 1) =~= ns@.take(i as int).push(ns@[i as int]));
                lemma_seq_mine_sum_push(self.tiles(), ns@.take(i as int), ns@[i as int]);
            }
            i = i + 1;
        }
        proof {
            assert(ns@.take(ns@.len() as int) =~= ns@);
            lemma_count_mines_is_neighbour_sum(
                self.tiles(),
                w as int,
                h as int,
                x as int,
                y as int,
            );
        }
        res
    }

    /// Places the board's mines at random, never on the excluded tile
    /// (`ex`, `ey`) — the tile of the first click — and never twice on one
    /// tile: exactly `mine_count` tiles become mines. Everything else about
    /// every tile is left as it was.
    pub fn gen_mines(&mut self, ex: usize, ey: usize)
        requires
            old(self).wf(),
            !old(self).mines_loaded,
            ex < old(self).spec_width(),
            ey < old(self).spec_height(),
        ensures
            final(self).wf(),
            final(self).mines_loaded,
            final(self).spec_width() == old(self).spec_width(),
            final(self).spec_height() == old(self).spec_height(),
            final(self).mine_count == old(self).mine_count,
            total_mines(final(self).tiles()) == old(self).mine_count,
            !final(self).tile_at(ex as int, ey as int).mine,
            forall|x: int, y: int|
                old(self).in_bounds(x, y) ==> {
                    let o = #[trigger] old(self).tile_at(x, y);
                    let t = final(self).tile_at(x, y);
                    t.marked == o.marked && t.display == o.display && t.player == o.player
                },
    {
        let w = self.grid.len();
        let h = self.grid[0].len();
        proof {
            crate::counting::lemma_total_mines_zero(self.tiles());
        }

        // Every cell except the excluded one is eligible for a mine.
        let mut eligible: Vec<(usize, usize)> = Vec::new();
        let mut i: usize = 0;
        while i < w
            invariant
                w == self.spec_width(),
                h == self.spec_height(),
                ex < w,
                ey < h,
                i <= w,
                eligible@.no_duplicates(),
                forall|p: (usize, usize)|
                    eligible@.contains(p) <==> ((p.1 as int) < h && p != (ex, ey) && cm_before(
                        p,
                        i as int,
                        0,
                    )),
                eligible@.len() == i * h - (if (ex as int) < i {
                    1int
                } else {
                    0int
                }),
            decreases w - i,
        {
            let mut j: usize = 0;
            while j < h
                invariant
                    w == self.spec_width(),
                    h == self.spec_height(),
                    ex < w,
                    ey < h,
                    i < w,
                    j <= h,
                    eligible@.no_duplicates(),
                    forall|p: (usize, usize)|
                        eligible@.contains(p) <==> ((p.1 as int) < h && p != (ex, ey)
                            && cm_before(p, i as int, j as int)),
                    eligible@.len() == i * h + j - (if (ex as int) < i || (ex == i && (ey as int)
                        < j) {
                        1int
                    } else {
                        0int
                    }),
                decreases h - j,
            {
                broadcast use vstd::seq_lib::lemma_seq_contains_after_push;

                if !(i == ex && j == ey) {
                    proof {
                        assert(!eligible@.contains((i, j)));
                        lemma_push_no_dup(eligible@, (i, j));
                    }
                    eligible.push((i, j));
                }
                j = j + 1;
            }
            proof {
                assert((i as int) * (h as int) + h == ((i as int) + 1) * (h as int)) by (
                nonlinear_arith);
            }
            i = i + 1;
        }

        self.mines_loaded = true;
        proof {
            assert(eligible@.len() == w * h - 1);
            assert(self.tiles() == old(self).tiles());
            assert forall|p: (usize, usize)| eligible@.contains(p) <==> ((p.0 as int) < w && (
            p.1 as int) < h && p != (ex, ey) && !self.tile_at(
                p.0 as int,
                p.1 as int,
            ).mine) by {
                if (p.0 as int) < w && (p.1 as int) < h {
                    assert(!self.tiles()[p.0 as int][p.1 as int].mine);
                }
            }
            assert(!self.tile_at(ex as int, ey as int).mine);
        }

        // Draw without replacement: each round picks a random eligible cell,
        // mines it and drops it from the list.
        let ghost orig = *old(self);
        let mut placed: usize = 0;
        while placed < self.mine_count
            invariant
                self.wf(),
                self.mines_loaded,
                w == self.spec_width(),
                h == self.spec_height(),
                self.spec_width() == orig.spec_width(),
                self.spec_height() == orig.spec_height(),
                self.mine_count == orig.mine_count,
                placed <= self.mine_count,
                ex < w,
                ey < h,
                eligible@.no_duplicates(),
                forall|p: (usize, usize)|
                    eligible@.contains(p) <==> ((p.0 as int) < w && (p.1 as int) < h && p != (
                    ex,
                    ey,
                ) && !self.tile_at(p.0 as int, p.1 as int).mine),
                eligible@.len() + placed == w * h - 1,
                total_mines(self.tiles()) == placed,
                !self.tile_at(ex as int, ey as int).mine,
                forall|x: int, y: int|
                    orig.in_bounds(x, y) ==> {
                        let o = #[trigger] orig.tile_at(x, y);
                        let t = self.tile_at(x, y);
                        t.marked == o.marked && t.display == o.display && t.player == o.player
                    },
            decreases self.mine_count - placed,
        {
            let idx = random_below(eligible.len());
            let ghost pre = eligible@;
            let p = eligible.swap_remove(idx);
            proof {
                assert(pre.contains(pre[idx as int]));
                lemma_swap_remove_no_dup(pre, idx as int);
            }
            proof {
                assert(self.tiles()[p.0 as int].len() == self.spec_height());
            }
            let t = self.grid[p.0][p.1];
            let ghost before = self.tiles();
            let mined = HexTile { mine: true, marked: t.marked, display: t.display, player: t.player };
            self.set_tile(p.0, p.1, mined);
            proof {
                assert(before.len() == w && before[p.0 as int].len() == h);
                lemma_total_mines_update(before, p.0 as int, p.1 as int, mined);
                assert(self.tiles() == before.update(
                    p.0 as int,
                    before[p.0 as int].update(p.1 as int, mined),
                ));
                assert forall|q: (usize, usize)| eligible@.contains(q) <==> ((q.0 as int) < w && (
                q.1 as int) < h && q != (ex, ey) && !self.tile_at(
                    q.0 as int,
                    q.1 as int,
                ).mine) by {
                    let u = pre.update(idx as int, pre.last()).drop_last();
                    assert(eligible@ == u);
                    assert(u.contains(q) <==> (pre.contains(q) && q != pre[idx as int]));
                    if (q.0 as int) < w && (q.1 as int) < h {
                        assert(before[q.0 as int].len() == h);
                        if q == p {
                            assert(self.tile_at(q.0 as int, q.1 as int).mine);
                        } else {
                            assert(self.tile_at(q.0 as int, q.1 as int) == before[q.0 as int][q.1
                                as int]);
                        }
                    } else {
                        if eligible@.contains(q) {
                            assert(pre.contains(q));
                        }
                    }
                }
                assert(self.tile_at(ex as int, ey as int) == before[ex as int][ey as int]);
                assert forall|x: int, y: int| orig.in_bounds(x, y) implies {
                    let o = #[trigger] orig.tile_at(x, y);
                    let tt = self.tile_at(x, y);
                    tt.marked == o.marked && tt.display == o.display && tt.player == o.player
                } by {
                    assert(before[x].len() == h);
                    if !(x == p.0 as int && y == p.1 as int) {
                        assert(self.tile_at(x, y) == before[x][y]);
                    }
                }
            }
            placed = placed + 1;
        }
    }

    /// Reveals the tile at (`x`, `y`) on behalf of player `player`.
    ///
    /// The first reveal places the mines, excluding the clicked tile, so the
    /// first click can never hit one; a click on a marked or revealed tile
    /// still triggers that placement before it is refused. A click off the
    /// board, on a marked tile or on an already revealed tile is `Invalid`
    /// and reveals nothing. A mined tile is revealed, owned, and answered
    /// with `Mine`. Any other tile is revealed and owned; a tile with no
    /// mined neighbour cascades the reveal to all its unmarked neighbours,
    /// and `Revealed(k)` reports how many tiles this click revealed in all.
    #[verifier::rlimit(100)]
    #[verifier::spinoff_prover]
    pub fn click(&mut self, x: usize, y: usize, player: usize) -> (res: ClickResult)
        requires
            old(self).wf(),
        ensures
            final(self).wf(),
            final(self).spec_width() == old(self).spec_width(),
            final(self).spec_height() == old(self).spec_height(),
            final(self).mine_count == old(self).mine_count,
            final(self).mines_loaded == (old(self).mines_loaded || old(self).in_bounds(
                x as int,
                y as int,
            )),
            // Tile-state frame: marks never change; a revealed tile keeps its
            // count and owner forever; a tile revealed by this click was
            // hidden and unmarked and now shows its neighbour mine count and
            // the clicking player.
            forall|a: int, b: int|
                old(self).in_bounds(a, b) ==> {
                    let o = #[trigger] old(self).tile_at(a, b);
                    let t = final(self).tile_at(a, b);
                    &&& t.marked == o.marked
                    &&& (o.is_revealed() ==> t.display == o.display && t.player == o.player)
                    &&& (!o.is_revealed() && t.is_revealed() ==> t.display == Some(
                        (spec_count_mines(final(self).tiles(), a, b) as usize),
                    ) && t.player == Some(player) && !o.marked)
                },
            // Mines: untouched when already loaded; placed by this click when
            // not, exactly `mine_count` of them and none on the clicked tile.
            old(self).mines_loaded ==> forall|a: int, b: int|
                old(self).in_bounds(a, b) ==> (#[trigger] final(self).tile_at(a, b)).mine == old(self).tile_at(a, b).mine,
            (!old(self).mines_loaded && old(self).in_bounds(x as int, y as int)) ==> (total_mines(
                final(self).tiles(),
            ) == old(self).mine_count && !final(self).tile_at(x as int, y as int).mine),
            !old(self).in_bounds(x as int, y as int) ==> *final(self) == *old(self),
            // Outcome taxonomy: `Invalid` exactly on off-board, marked or
            // revealed targets, and then no tile's visible state changes;
            // `Mine` exactly on a (post-placement) mined target, which is the
            // only tile that changes; `Revealed(k)` otherwise, `k` being the
            // number of tiles this click revealed, at least the clicked one.
            res is Invalid <==> (!old(self).in_bounds(x as int, y as int) || old(self).tile_at(
                x as int,
                y as int,
            ).marked || old(self).tile_at(x as int, y as int).is_revealed()),
            res is Invalid ==> forall|a: int, b: int|
                old(self).in_bounds(a, b) ==> {
                    let o = #[trigger] old(self).tile_at(a, b);
                    let t = final(self).tile_at(a, b);
                    t.display == o.display && t.player == o.player && t.marked == o.marked
                },
            res is Mine <==> (old(self).in_bounds(x as int, y as int) && !old(self).tile_at(
                x as int,
                y as int,
            ).marked && !old(self).tile_at(x as int, y as int).is_revealed() && final(self).tile_at(x as int, y as int).mine),
            res is Mine ==> (final(self).tile_at(x as int, y as int).is_revealed() && forall|
                a: int,
                b: int,
            |
                old(self).in_bounds(a, b) && !(a == x as int && b == y as int) ==> {
                    let o = #[trigger] old(self).tile_at(a, b);
                    let t = final(self).tile_at(a, b);
                    t.display == o.display && t.player == o.player
                }),
            res is Revealed <==> (old(self).in_bounds(x as int, y as int) && !old(self).tile_at(
                x as int,
                y as int,
            ).marked && !old(self).tile_at(x as int, y as int).is_revealed() && !final(self).tile_at(x as int, y as int).mine),
            res matches ClickResult::Revealed(k) ==> (k == total_revealed(final(self).tiles())
                - total_revealed(old(self).tiles()) && k >= 1 && final(self).tile_at(
                x as int,
                y as int,
            ).is_revealed()),
            // The first reveal click on a hidden, unmarked tile never hits a
            // mine.
            (!old(self).mines_loaded && old(self).in_bounds(x as int, y as int) && !old(self).tile_at(x as int, y as int).marked && !old(self).tile_at(
                x as int,
                y as int,
            ).is_revealed()) ==> res is Revealed,
            // Cascade completeness: a tile revealed by this click that shows
            // zero has every unmarked neighbour revealed.
            res is Revealed ==> forall|a: int, b: int, c: int, d: int|
                #![trigger is_neighbour(old(self).spec_width(), old(self).spec_height(), a, b, c, d)]
                old(self).in_bounds(a, b) && !old(self).tile_at(a, b).is_revealed() && final(self).tile_at(a, b).display == Some(0usize) && is_neighbour(
                    old(self).spec_width(),
                    old(self).spec_height(),
                    a,
                    b,
                    c,
                    d,
                ) && !final(self).tile_at(c, d).marked ==> final(self).tile_at(c, d).is_revealed(),
            // The cascade never uncovers a mine: of the tiles this click
            // revealed, only the clicked one can be mined.
            forall|a: int, b: int|
                old(self).in_bounds(a, b) && !(#[trigger] old(self).tile_at(
                    a,
                    b,
                )).is_revealed() && final(self).tile_at(a, b).is_revealed() && !(a == x as int && b
                    == y as int) ==> !final(self).tile_at(a, b).mine,
    {
        let w = self.grid.len();
        let h = self.grid[0].len();
        if x >= w || y >= h {
            return ClickResult::Invalid;
        }
        if !self.mines_loaded {
            self.gen_mines(x, y);
        }
        // From here on the mine layout is fixed.
        let ghost gm = *self;
        proof {
            assert forall|a: int, b: int|
                0 <= a < old(self).tiles().len() && 0 <= b < old(self).tiles()[a].len() implies (
            #[trigger] old(self).tiles()[a][b]).is_revealed() == gm.tiles()[a][b].is_revealed() by {
                assert(old(self).tile_at(a, b).display == gm.tile_at(a, b).display);
            }
            lemma_total_revealed_same(old(self).tiles(), gm.tiles());
            assert(gm.tiles()[x as int].len() == gm.spec_height());
        }
        let t0 = self.grid[x][y];
        if t0.marked || t0.display.is_some() {
            return ClickResult::Invalid;
        }
        let cnt = self.count_mines(x, y);
        let ghost before0 = self.tiles();
        let opened = HexTile { mine: t0.mine, marked: t0.marked, display: Some(cnt), player: Some(player) };
        self.set_tile(x, y, opened);
        proof {
            lemma_total_revealed_update(before0, x as int, y as int, opened);
            assert forall|a: int, b: int|
                gm.in_bounds(a, b) implies self.tile_at(a, b).mine == (#[trigger] gm.tile_at(
                a,
                b,
            )).mine by {
                if !(a == x as int && b == y as int) {
                    assert(self.tile_at(a, b) == gm.tile_at(a, b));
                }
            }
            lemma_counts_agree(*self, gm);
        }
        if t0.mine {
            return ClickResult::Mine;
        }
        let mut k: usize = 1;
        let mut stack: Vec<(usize, usize)> = Vec::new();
        if cnt == 0 {
            let mut ns = self.get_neighbours(x, y);
            let ghost nsv = ns@;
            stack.append(&mut ns);
            proof {
                assert forall|i: int| 0 <= i < stack@.len() implies {
                    let q = #[trigger] stack@[i];
                    is_neighbour(w as int, h as int, x as int, y as int, q.0 as int, q.1 as int)
                } by {
                    assert(stack@[i] == nsv[i]);
                    assert(nsv.contains(nsv[i]));
                }
                assert(gm.in_bounds(x as int, y as int) && !gm.tile_at(
                    x as int,
                    y as int,
                ).is_revealed() && self.tile_at(x as int, y as int).display == Some(0usize));
            }
        }
        while stack.len() > 0
            invariant
                self.wf(),
                self.mines_loaded,
                self.spec_width() == w,
                self.spec_height() == h,
                self.mine_count == gm.mine_count,
                gm.wf(),
                gm.spec_width() == w,
                gm.spec_height() == h,
                x < w,
                y < h,
                !gm.tile_at(x as int, y as int).mine,
                !gm.tile_at(x as int, y as int).is_revealed(),
                // frame against the pre-reveal state
                forall|a: int, b: int|
                    gm.in_bounds(a, b) ==> {
                        let o = #[trigger] gm.tile_at(a, b);
                        let t = self.tile_at(a, b);
                        &&& t.mine == o.mine
                        &&& t.marked == o.marked
                        &&& (o.is_revealed() ==> t.display == o.display && t.player == o.player)
                        &&& (!o.is_revealed() && t.is_revealed() ==> t.display == Some(
                            (spec_count_mines(gm.tiles(), a, b) as usize),
                        ) && t.player == Some(player) && !o.marked)
                    },
                self.tile_at(x as int, y as int).display == Some(
                    (spec_count_mines(gm.tiles(), x as int, y as int) as usize),
                ),
                self.tile_at(x as int, y as int).player == Some(player),
                k >= 1,
                k == total_revealed(self.tiles()) - total_revealed(gm.tiles()),
                // every stacked coordinate is on the board
                forall|i: int|
                    0 <= i < stack@.len() ==> ((#[trigger] stack@[i]).0 as int) < w && (
                    stack@[i].1 as int) < h,
                // every unmarked neighbour of a zero tile this click revealed
                // is revealed or still waiting on the stack
                forall|a: int, b: int, c: int, d: int|
                    #![trigger is_neighbour(w as int, h as int, a, b, c, d)]
                    gm.in_bounds(a, b) && !gm.tile_at(a, b).is_revealed() && self.tile_at(
                        a,
                        b,
                    ).display == Some(0usize) && is_neighbour(w as int, h as int, a, b, c, d)
                        && !self.tile_at(c, d).marked ==> (self.tile_at(c, d).is_revealed()
                        || stack@.contains(((c as usize), (d as usize)))),
                // the cascade uncovers no mine
                forall|a: int, b: int|
                    gm.in_bounds(a, b) && !(#[trigger] gm.tile_at(a, b)).is_revealed()
                        && self.tile_at(a, b).is_revealed() && !(a == x as int && b == y as int)
                        ==> !self.tile_at(a, b).mine,
            decreases w * h - total_revealed(self.tiles()), stack@.len(),
        {
            let ghost spre = stack@;
            let ghost s0 = *self;
            let p = stack.pop().unwrap();
            let cx = p.0;
            let cy = p.1;
            let ghost stack_snap = stack@;
            proof {
                assert(spre.contains(spre[spre.len() - 1]));
                assert(stack_snap =~= spre.drop_last());
                assert forall|q: (usize, usize)|
                    spre.contains(q) && q != p implies stack_snap.contains(q) by {
                    lemma_drop_last_keeps(spre, q);
                }
                assert(self.tiles()[cx as int].len() == self.spec_height());
                lemma_total_revealed_bounds(self.tiles(), h as int);
                lemma_total_revealed_bounds(gm.tiles(), h as int);
            }
            let tc = self.grid[cx][cy];
            proof {
                assert(tc == s0.tile_at(cx as int, cy as int));
            }
            if !tc.marked && !tc.mine && tc.display.is_none() {
                let ccnt = self.count_mines(cx, cy);
                proof {
                    lemma_counts_agree(*self, gm);
                }
                let ghost before = self.tiles();
                let copened = HexTile {
                    mine: tc.mine,
                    marked: tc.marked,
                    display: Some(ccnt),
                    player: Some(player),
                };
                self.set_tile(cx, cy, copened);
                proof {
                    lemma_total_revealed_update(before, cx as int, cy as int, copened);
                    assert forall|a: int, b: int|
                        gm.in_bounds(a, b) implies self.tile_at(a, b).mine == (
                    #[trigger] gm.tile_at(a, b)).mine by {
                        if !(a == cx as int && b == cy as int) {
                            assert(self.tile_at(a, b) == before[a][b]);
                        }
                    }
                    lemma_counts_agree(*self, gm);
                    lemma_total_revealed_bounds(self.tiles(), h as int);
                }
                k = k + 1;
                if ccnt == 0 {
                    let mut ns = self.get_neighbours(cx, cy);
                    let ghost nsv = ns@;
                    stack.append(&mut ns);
                    proof {
                        broadcast use vstd::seq_lib::lemma_seq_concat_contains_all_elements;

                        assert(stack@ == stack_snap + nsv);
                        assert forall|i: int|
                            0 <= i < stack@.len() implies ((#[trigger] stack@[i]).0 as int) < w
                            && (stack@[i].1 as int) < h by {
                            if i < stack_snap.len() {
                                assert(stack@[i] == spre[i]);
                            } else {
                                let q = stack@[i];
                                assert(q == nsv[i - stack_snap.len()]);
                                assert(q == (q.0, q.1));
                                assert(nsv.contains((q.0, q.1)));
                                assert(is_neighbour(
                                    w as int,
                                    h as int,
                                    cx as int,
                                    cy as int,
                                    q.0 as int,
                                    q.1 as int,
                                ));
                            }
                        }
                        // every unmarked neighbour of a zero tile of this
                        // click stays revealed or stacked
                        assert forall|a: int, b: int, c: int, d: int|
                            gm.in_bounds(a, b) && !gm.tile_at(a, b).is_revealed() && self.tile_at(
                                a,
                                b,
                            ).display == Some(0usize) && #[trigger] is_neighbour(
                                w as int,
                                h as int,
                                a,
                                b,
                                c,
                                d,
                            ) && !self.tile_at(c, d).marked implies (self.tile_at(
                            c,
                            d,
                        ).is_revealed() || stack@.contains(((c as usize), (d as usize)))) by {
                            if a == cx as int && b == cy as int {
                                assert(nsv.contains(((c as usize), (d as usize))));
                            } else {
                                assert(self.tile_at(a, b) == before[a][b]);
                                if !(c == cx as int && d == cy as int) {
                                    assert(self.tile_at(c, d) == before[c][d]);
                                    if !s0.tile_at(c, d).is_revealed() {
                                        assert(spre.contains(((c as usize), (d as usize))));
                                        if ((c as usize), (d as usize)) != p {
                                            assert(stack_snap.contains(((c as usize), (
                                            d as usize))));
                                        }
                                    }
                                }
                            }
                        }
                    }
                } else {
                    proof {
                        // the tile just revealed shows a nonzero count, so
                        // only pre-existing zero tiles matter
                        lemma_spec_count_mines_bounds(gm.tiles(), cx as int, cy as int);
                        assert forall|a: int, b: int, c: int, d: int|
                            gm.in_bounds(a, b) && !gm.tile_at(a, b).is_revealed() && self.tile_at(
                                a,
                                b,
                            ).display == Some(0usize) && #[trigger] is_neighbour(
                                w as int,
                                h as int,
                                a,
                                b,
                                c,
                                d,
                            ) && !self.tile_at(c, d).marked implies (self.tile_at(
                            c,
                            d,
                        ).is_revealed() || stack@.contains(((c as usize), (d as usize)))) by {
                            if !(a == cx as int && b == cy as int) {
                                assert(self.tile_at(a, b) == before[a][b]);
                                if !(c == cx as int && d == cy as int) {
                                    assert(self.tile_at(c, d) == before[c][d]);
                                    if !s0.tile_at(c, d).is_revealed() {
                                        assert(spre.contains(((c as usize), (d as usize))));
                                        if ((c as usize), (d as usize)) != p {
                                            assert(stack_snap.contains(((c as usize), (
                                            d as usize))));
                                        }
                                    }
                                }
                            }
                        }
                    }
                }
            } else {
                proof {
                    // nothing changed: the popped tile was marked, mined or
                    // already revealed, so dropping it loses no pending work
                    assert forall|a: int, b: int, c: int, d: int|
                        gm.in_bounds(a, b) && !gm.tile_at(a, b).is_revealed() && self.tile_at(
                            a,
                            b,
                        ).display == Some(0usize) && #[trigger] is_neighbour(
                            w as int,
                            h as int,
                            a,
                            b,
                            c,
                            d,
                        ) && !self.tile_at(c, d).marked implies (self.tile_at(
                        c,
                        d,
                    ).is_revealed() || stack@.contains(((c as usize), (d as usize)))) by {
                        if !s0.tile_at(c, d).is_revealed() {
                            assert(spre.contains(((c as usize), (d as usize))));
                            if ((c as usize), (d as usize)) == p {
                                if !self.tile_at(c, d).marked && !self.tile_at(
                                    c,
                                    d,
                                ).is_revealed() {
                                    assert(self.tile_at(c, d).mine);
                                    assert(self.tile_at(a, b).display == Some(
                                        (spec_count_mines(gm.tiles(), a, b) as usize),
                                    ));
                                    lemma_spec_count_mines_bounds(gm.tiles(), a, b);
                                    assert(spec_count_mines(gm.tiles(), a, b) == 0);
                                    lemma_zero_count_no_mined_neighbour(
                                        gm.tiles(),
                                        w as int,
                                        h as int,
                                        a,
                                        b,
                                        c,
                                        d,
                                    );
                                    assert(!gm.tiles()[c][d].mine);
                                    assert(!gm.tile_at(c, d).mine);
                                    assert(!self.tile_at(c, d).mine);
                                }
                            } else {
                                assert(stack_snap.contains(((c as usize), (d as usize))));
                            }
                        }
                    }
                }
            }
        }
        proof {
            lemma_counts_agree(*self, gm);
        }
        ClickResult::Revealed(k)
    }

    /// What a successful mark toggle does: the tile at (`x`, `y`) was on the
    /// board and hidden, its flag is flipped, and nothing else changes.
    pub open spec fn mark_toggled(pre: HexGrid, post: HexGrid, x: int, y: int) -> bool {
        &&& pre.in_bounds(x, y)
        &&& !pre.tile_at(x, y).is_revealed()
        &&& post.tiles() == pre.tiles().update(
            x,
            pre.tiles()[x].update(y, flip_mark(pre.tile_at(x, y))),
        )
        &&& post.mines_loaded == pre.mines_loaded
        &&& post.mine_count == pre.mine_count
    }

    /// Toggles the flag of the tile at (`x`, `y`): `Invalid` if the
    /// coordinate is off the board or the tile is already revealed (a
    /// revealed tile cannot be flagged), otherwise the flag flips and
    /// nothing else changes.
    pub fn mark(&mut self, x: usize, y: usize) -> (res: MarkResult)
        requires
            old(self).wf(),
        ensures
            final(self).wf(),
            res is Invalid <==> (!old(self).in_bounds(x as int, y as int) || old(self).tile_at(
                x as int,
                y as int,
            ).is_revealed()),
            res is Invalid ==> *final(self) == *old(self),
            res is Toggled ==> HexGrid::mark_toggled(*old(self), *final(self), x as int, y as int),
    {
        if x >= self.grid.len() {
            return MarkResult::Invalid;
        }
        proof {
            assert(self.tiles()[x as int].len() == self.spec_height());
        }
        if y >= self.grid[x].len() {
            return MarkResult::Invalid;
        }
        let t = self.grid[x][y];
        if t.display.is_some() {
            return MarkResult::Invalid;
        }
        let ghost before = self.tiles();
        let flipped = HexTile { marked: !t.marked, mine: t.mine, display: t.display, player: t.player };
        self.set_tile(x, y, flipped);
        proof {
            lemma_total_mines_update(before, x as int, y as int, flipped);
            assert forall|i: int|
                0 <= i < self.spec_width() implies (#[trigger] self.tiles()[i]).len()
                == self.spec_height() by {
                assert(before[i].len() == old(self).spec_height());
            }
        }
        MarkResult::Toggled
    }

    /// Replaces the tile at (`x`, `y`), leaving everything else as it was.
    fn set_tile(&mut self, x: usize, y: usize, t: HexTile)
        requires
            x < old(self).spec_width(),
            y < old(self).tiles()[x as int].len(),
        ensures
            final(self).tiles() == old(self).tiles().update(
                x as int,
                old(self).tiles()[x as int].update(y as int, t),
            ),
            final(self).spec_width() == old(self).spec_width(),
            final(self).spec_height() == old(self).spec_height(),
            final(self).mines_loaded == old(self).mines_loaded,
            final(self).mine_count == old(self).mine_count,
            final(self).tile_at(x as int, y as int) == t,
            forall|a: int, b: int|
                0 <= a < old(self).spec_width() && 0 <= b < old(self).tiles()[a].len() && !(a == x
                    && b == y) ==> #[trigger] final(self).tile_at(a, b) == old(self).tile_at(a, b),
            forall|i: int|
                0 <= i < old(self).spec_width() ==> (#[trigger] final(self).tiles()[i]).len()
                    == old(self).tiles()[i].len(),
    {
        proof {
            assert(self.grid@[x as int]@ == self.tiles()[x as int]);
        }
        self.grid[x][y] = t;
        proof {
            assert(self.tiles() =~= old(self).tiles().update(
                x as int,
                old(self).tiles()[x as int].update(y as int, t),
            ));
            assert forall|a: int, b: int|
                0 <= a < old(self).spec_width() && 0 <= b < old(self).tiles()[a].len() && !(a == x
                    && b == y) implies #[trigger] self.tile_at(a, b) == old(self).tile_at(
                a,
                b,
            ) by {
                if a != x as int {
                    assert(self.tiles()[a] == old(self).tiles()[a]);
                }
            }
        }
    }
}

/// Column of the diagonal neighbours in the rows above and below: on even
/// rows they sit at columns `x - 1` and `x`, on odd rows at `x` and `x + 1`.
pub open spec fn diag_x(x: int, y: int) -> int {
    if y % 2 == 0 {
        x - 1
    } else {
        x + 1
    }
}

/// The adjacency relation of the offset hex tiling on a `w × h` board:
/// (`nx`, `ny`) neighbours (`x`, `y`) when it is in bounds and sits either
/// beside it in the same row, or in the row above or below at column `x` or
/// at the parity-dependent diagonal column.
pub open spec fn is_neighbour(w: int, h: int, x: int, y: int, nx: int, ny: int) -> bool {
    0 <= nx < w && 0 <= ny < h && ((ny == y && (nx == x - 1 || nx == x + 1)) || ((ny == y - 1
        || ny == y + 1) && (nx == x || nx == diag_x(x, y))))
}

/// The in-bounds neighbours of (`x`, `y`) that lie in row `ny` (the row
/// above or below `y`), diagonal column first.
#[verifier::opaque]
pub open spec fn band_seq(w: int, x: int, y: int, ny: int) -> Seq<(usize, usize)> {
    (if 0 <= diag_x(x, y) < w {
        seq![(diag_x(x, y) as usize, ny as usize)]
    } else {
        seq![]
    }) + seq![(x as usize, ny as usize)]
}

/// All in-bounds neighbours of (`x`, `y`) on a `w × h` board, in a fixed
/// order: same-row left and right, then the row above, then the row below.
#[verifier::opaque]
pub open spec fn neighbours_seq(w: int, h: int, x: int, y: int) -> Seq<(usize, usize)> {
    (if x > 0 {
        seq![((x - 1) as usize, y as usize)]
    } else {
        seq![]
    }) + (if x + 1 < w {
        seq![((x + 1) as usize, y as usize)]
    } else {
        seq![]
    }) + (if y > 0 {
        band_seq(w, x, y, y - 1)
    } else {
        seq![]
    }) + (if y + 1 < h {
        band_seq(w, x, y, y + 1)
    } else {
        seq![]
    })
}

/// The neighbour list repeats no coordinate and holds exactly the pairs the
/// adjacency relation admits.
#[verifier::rlimit(50)]
pub proof fn lemma_neighbours_props(w: int, h: int, x: int, y: int)
    requires
        0 <= x < w <= usize::MAX,
        0 <= y < h <= usize::MAX,
    ensures
        neighbours_seq(w, h, x, y).no_duplicates(),
        forall|nx: usize, ny: usize|
            neighbours_seq(w, h, x, y).contains((nx, ny)) <==> is_neighbour(
                w,
                h,
                x,
                y,
                nx as int,
                ny as int,
            ),
{
    broadcast use vstd::seq_lib::lemma_seq_concat_contains_all_elements;
    broadcast use vstd::seq_lib::lemma_seq_empty_contains_nothing;
    broadcast use vstd::seq_lib::lemma_seq_contains_after_push;

    reveal(neighbours_seq);
    reveal(band_seq);
    let ns = neighbours_seq(w, h, x, y);
    assert forall|nx: usize, ny: usize| ns.contains((nx, ny)) <==> is_neighbour(
        w,
        h,
        x,
        y,
        nx as int,
        ny as int,
    ) by {
        if is_neighbour(w, h, x, y, nx as int, ny as int) {
            assert(ns.contains((nx, ny)));
        }
        if ns.contains((nx, ny)) {
            assert(is_neighbour(w, h, x, y, nx as int, ny as int));
        }
    }
    assert(ns.no_duplicates());
}

/// 1 when (`nx`, `ny`) is on the board and mined, 0 otherwise.
pub open spec fn mine_at(g: Seq<Seq<HexTile>>, nx: int, ny: int) -> int {
    if 0 <= nx < g.len() && 0 <= ny < g[nx].len() && g[nx][ny].mine {
        1
    } else {
        0
    }
}

/// Number of mines among the (up to six) neighbours of (`x`, `y`): the two
/// same-row candidates plus the two candidates in each adjacent row.
#[verifier::opaque]
pub open spec fn spec_count_mines(g: Seq<Seq<HexTile>>, x: int, y: int) -> int {
    mine_at(g, x - 1, y) + mine_at(g, x + 1, y) + mine_at(g, diag_x(x, y), y - 1) + mine_at(
        g,
        x,
        y - 1,
    ) + mine_at(g, diag_x(x, y), y + 1) + mine_at(g, x, y + 1)
}

/// Sum of the mine indicators of a list of coordinates.
pub open spec fn seq_mine_sum(g: Seq<Seq<HexTile>>, ns: Seq<(usize, usize)>) -> int
    decreases ns.len(),
{
    if ns.len() == 0 {
        0
    } else {
        mine_at(g, ns[0].0 as int, ns[0].1 as int) + seq_mine_sum(g, ns.drop_first())
    }
}

/// Appending one coordinate adds its mine indicator to the sum.
proof fn lemma_seq_mine_sum_push(g: Seq<Seq<HexTile>>, ns: Seq<(usize, usize)>, p: (usize, usize))
    ensures
        seq_mine_sum(g, ns.push(p)) == seq_mine_sum(g, ns) + mine_at(g, p.0 as int, p.1 as int),
    decreases ns.len(),
{
    if ns.len() == 0 {
        assert(ns.push(p).drop_first() =~= ns);
    } else {
        assert(ns.push(p).drop_first() =~= ns.drop_first().push(p));
        lemma_seq_mine_sum_push(g, ns.drop_first(), p);
    }
}

/// The sum over a single coordinate is its mine indicator.
proof fn lemma_seq_mine_sum_singleton(g: Seq<Seq<HexTile>>, p: (usize, usize))
    ensures
        seq_mine_sum(g, seq![p]) == mine_at(g, p.0 as int, p.1 as int),
{
    let s = seq![p];
    assert(s.len() == 1 && s[0] == p);
    assert(s.drop_first() =~= Seq::<(usize, usize)>::empty());
    assert(seq_mine_sum(g, Seq::<(usize, usize)>::empty()) == 0);
    assert(seq_mine_sum(g, s) == mine_at(g, s[0].0 as int, s[0].1 as int) + seq_mine_sum(
        g,
        s.drop_first(),
    ));
}

/// The sum of a concatenation is the sum of the two parts.
proof fn lemma_seq_mine_sum_concat(g: Seq<Seq<HexTile>>, a: Seq<(usize, usize)>, b: Seq<
    (usize, usize),
>)
    ensures
        seq_mine_sum(g, a + b) == seq_mine_sum(g, a) + seq_mine_sum(g, b),
    decreases a.len(),
{
    if a.len() == 0 {
        assert(a + b =~= b);
    } else {
        assert((a + b).drop_first() =~= a.drop_first() + b);
        lemma_seq_mine_sum_concat(g, a.drop_first(), b);
    }
}

/// Summing the mine indicators over the neighbour list gives exactly the
/// neighbour mine count: the count of mined tiles adjacent to (`x`, `y`)
/// is the sum of `is_mine` over its neighbours.
pub proof fn lemma_count_mines_is_neighbour_sum(
    g: Seq<Seq<HexTile>>,
    w: int,
    h: int,
    x: int,
    y: int,
)
    requires
        g.len() == w,
        forall|i: int| 0 <= i < w ==> (#[trigger] g[i]).len() == h,
        0 <= x < w <= usize::MAX,
        0 <= y < h <= usize::MAX,
    ensures
        seq_mine_sum(g, neighbours_seq(w, h, x, y)) == spec_count_mines(g, x, y),
{
    reveal(neighbours_seq);
    reveal(band_seq);
    reveal(spec_count_mines);
    let a = if x > 0 {
        seq![((x - 1) as usize, y as usize)]
    } else {
        seq![]
    };
    let b = if x + 1 < w {
        seq![((x + 1) as usize, y as usize)]
    } else {
        seq![]
    };
    let c = if y > 0 {
        band_seq(w, x, y, y - 1)
    } else {
        seq![]
    };
    let d = if y + 1 < h {
        band_seq(w, x, y, y + 1)
    } else {
        seq![]
    };
    lemma_seq_mine_sum_concat(g, a + b + c, d);
    lemma_seq_mine_sum_concat(g, a + b, c);
    lemma_seq_mine_sum_concat(g, a, b);
    if x > 0 {
        lemma_seq_mine_sum_singleton(g, ((x - 1) as usize, y as usize));
    }
    if x + 1 < w {
        lemma_seq_mine_sum_singleton(g, ((x + 1) as usize, y as usize));
    }
    if y > 0 {
        lemma_band_mine_sum(g, w, h, x, y, y - 1);
    }
    if y + 1 < h {
        lemma_band_mine_sum(g, w, h, x, y, y + 1);
    }
}

/// The mine-indicator sum of one adjacent-row band.
proof fn lemma_band_mine_sum(g: Seq<Seq<HexTile>>, w: int, h: int, x: int, y: int, ny: int)
    requires
        g.len() == w,
        forall|i: int| 0 <= i < w ==> (#[trigger] g[i]).len() == h,
        0 <= x < w <= usize::MAX,
        0 <= y < h <= usize::MAX,
        0 <= ny < h,
    ensures
        seq_mine_sum(g, band_seq(w, x, y, ny)) == mine_at(g, diag_x(x, y), ny) + mine_at(
            g,
            x,
            ny,
        ),
{
    reveal(band_seq);
    let dseq = if 0 <= diag_x(x, y) < w {
        seq![(diag_x(x, y) as usize, ny as usize)]
    } else {
        seq![]
    };
    lemma_seq_mine_sum_concat(g, dseq, seq![(x as usize, ny as usize)]);
    lemma_seq_mine_sum_singleton(g, (x as usize, ny as usize));
    if 0 <= diag_x(x, y) < w {
        lemma_seq_mine_sum_singleton(g, (diag_x(x, y) as usize, ny as usize));
    }
}

/// The same tile with its flag flipped.
pub open spec fn flip_mark(t: HexTile) -> HexTile {
    HexTile { marked: !t.marked, mine: t.mine, display: t.display, player: t.player }
}

/// Relies on fastrand::usize: returns a random value in the given range;
/// `..n` is the half-open range below `n`, nonempty since `n >= 1`, so the
/// result is strictly below `n`.
#[verifier::external_body]
fn random_below(n: usize) -> (r: usize)
    requires
        n >= 1,
    ensures
        r < n,
{
    fastrand::usize(..n)
}

/// Whether `p` comes before column `i`, row `j` in column-major order.
spec fn cm_before(p: (usize, usize), i: int, j: int) -> bool {
    (p.0 as int) < i || ((p.0 as int) == i && (p.1 as int) < j)
}

/// Pushing an element a sequence does not hold keeps it duplicate-free.
proof fn lemma_push_no_dup<A>(s: Seq<A>, v: A)
    requires
        s.no_duplicates(),
        !s.contains(v),
    ensures
        s.push(v).no_duplicates(),
{
    assert forall|i: int, j: int|
        0 <= i < s.push(v).len() && 0 <= j < s.push(v).len() && i != j implies s.push(v)[i]
        != s.push(v)[j] by {
        if i < s.len() && j < s.len() {
        } else if i < s.len() {
            assert(s[i] == s.push(v)[i]);
        } else {
            assert(s[j] == s.push(v)[j]);
        }
    }
}

/// `swap_remove` at position `i` of a duplicate-free sequence takes out
/// exactly the element at `i` and keeps the rest, still duplicate-free.
proof fn lemma_swap_remove_no_dup<A>(s: Seq<A>, i: int)
    requires
        s.no_duplicates(),
        0 <= i < s.len(),
    ensures
        s.update(i, s.last()).drop_last().no_duplicates(),
        forall|q: A|
            s.update(i, s.last()).drop_last().contains(q) <==> (s.contains(q) && q != s[i]),
{
    let u = s.update(i, s.last()).drop_last();
    assert forall|q: A| u.contains(q) <==> (s.contains(q) && q != s[i]) by {
        if u.contains(q) {
            let k = choose|k: int| 0 <= k < u.len() && u[k] == q;
            if k == i {
                assert(s[s.len() - 1] == q);
            } else {
                assert(s[k] == q);
            }
        }
        if s.contains(q) && q != s[i] {
            let m = choose|m: int| 0 <= m < s.len() && s[m] == q;
            if m == s.len() - 1 {
                assert(i < s.len() - 1);
                assert(u[i] == q);
            } else if m != i {
                assert(u[m] == q);
            }
        }
    }
    assert forall|a: int, b: int|
        0 <= a < u.len() && 0 <= b < u.len() && a != b implies u[a] != u[b] by {
        if a == i {
            assert(u[a] == s[s.len() - 1]);
            assert(u[b] == s[b]);
        } else if b == i {
            assert(u[b] == s[s.len() - 1]);
            assert(u[a] == s[a]);
        } else {
            assert(u[a] == s[a] && u[b] == s[b]);
        }
    }
}

/// On boards of the same shape whose tiles agree on `mine`, every position
/// has the same mine indicator, and so every neighbour mine count agrees.
pub proof fn lemma_mine_at_same(g1: Seq<Seq<HexTile>>, g2: Seq<Seq<HexTile>>)
    requires
        g1.len() == g2.len(),
        forall|x: int| 0 <= x < g1.len() ==> (#[trigger] g1[x]).len() == g2[x].len(),
        forall|x: int, y: int|
            0 <= x < g1.len() && 0 <= y < g1[x].len() ==> (#[trigger] g1[x][y]).mine
                == g2[x][y].mine,
    ensures
        forall|nx: int, ny: int| #[trigger] mine_at(g1, nx, ny) == mine_at(g2, nx, ny),
        forall|x: int, y: int| #[trigger]
            spec_count_mines(g1, x, y) == spec_count_mines(g2, x, y),
{
    reveal(spec_count_mines);
    assert forall|nx: int, ny: int| #[trigger] mine_at(g1, nx, ny) == mine_at(g2, nx, ny) by {
        if 0 <= nx < g1.len() && 0 <= ny < g1[nx].len() {
            assert(g1[nx][ny].mine == g2[nx][ny].mine);
        }
    }
}

/// An element other than the last one survives dropping the last.
proof fn lemma_drop_last_keeps<A>(s: Seq<A>, q: A)
    requires
        s.len() > 0,
        s.contains(q),
        q != s.last(),
    ensures
        s.drop_last().contains(q),
{
    let i = choose|i: int| 0 <= i < s.len() && s[i] == q;
    assert(i < s.len() - 1);
    assert(s.drop_last()[i] == q);
}

/// Two well-formed boards of the same dimensions whose tiles agree on
/// `mine` everywhere have the same neighbour counts everywhere and the same
/// mine total.
proof fn lemma_counts_agree(s1: HexGrid, s2: HexGrid)
    requires
        s1.wf(),
        s2.wf(),
        s1.spec_width() == s2.spec_width(),
        s1.spec_height() == s2.spec_height(),
        forall|a: int, b: int|
            s1.in_bounds(a, b) ==> s1.tile_at(a, b).mine == (#[trigger] s2.tile_at(a, b)).mine,
    ensures
        forall|x: int, y: int| #[trigger]
            spec_count_mines(s1.tiles(), x, y) == spec_count_mines(s2.tiles(), x, y),
        total_mines(s1.tiles()) == total_mines(s2.tiles()),
{
    assert forall|a: int, b: int|
        0 <= a < s1.tiles().len() && 0 <= b < s1.tiles()[a].len() implies (
    #[trigger] s1.tiles()[a][b]).mine == s2.tiles()[a][b].mine by {
        assert(s1.tiles()[a].len() == s1.spec_height());
        assert(s2.tile_at(a, b).mine == s1.tile_at(a, b).mine);
    }
    assert forall|a: int|
        0 <= a < s1.tiles().len() implies (#[trigger] s1.tiles()[a]).len()
        == s2.tiles()[a].len() by {
        assert(s2.tiles()[a].len() == s2.spec_height());
    }
    lemma_mine_at_same(s1.tiles(), s2.tiles());
    lemma_total_mines_same(s1.tiles(), s2.tiles());
}

/// A tile has at most six neighbours, so its neighbour mine count lies
/// between 0 and 6.
pub proof fn lemma_spec_count_mines_bounds(g: Seq<Seq<HexTile>>, x: int, y: int)
    ensures
        0 <= spec_count_mines(g, x, y) <= 6,
{
    reveal(spec_count_mines);
}

/// A tile with no mined neighbours has, in particular, no mine on any tile
/// adjacent to it.
pub proof fn lemma_zero_count_no_mined_neighbour(
    g: Seq<Seq<HexTile>>,
    w: int,
    h: int,
    x: int,
    y: int,
    nx: int,
    ny: int,
)
    requires
        g.len() == w,
        forall|i: int| 0 <= i < w ==> (#[trigger] g[i]).len() == h,
        spec_count_mines(g, x, y) == 0,
        is_neighbour(w, h, x, y, nx, ny),
    ensures
        !g[nx][ny].mine,
{
    reveal(spec_count_mines);
    assert(mine_at(g, x - 1, y) >= 0 && mine_at(g, x + 1, y) >= 0 && mine_at(
        g,
        diag_x(x, y),
        y - 1,
    ) >= 0 && mine_at(g, x, y - 1) >= 0 && mine_at(g, diag_x(x, y), y + 1) >= 0 && mine_at(
        g,
        x,
        y + 1,
    ) >= 0);
    assert(mine_at(g, nx, ny) == 0);
}


/// An interior tile — one not on the board's rim — has exactly six
/// neighbours, and they are distinct and in bounds.
pub proof fn lemma_neighbours_interior(w: int, h: int, x: int, y: int)
    requires
        0 < x < w - 1,
        0 < y < h - 1,
        w <= usize::MAX,
        h <= usize::MAX,
    ensures
        neighbours_seq(w, h, x, y).len() == 6,
{
    reveal(neighbours_seq);
    reveal(band_seq);
}

/// The top-left corner has exactly two neighbours, and so does the
/// bottom-right corner of a board with an even number of rows. (The other
/// corners touch a shifted row and border three tiles.)
pub proof fn lemma_neighbours_corners(w: int, h: int)
    requires
        2 <= w <= usize::MAX,
        2 <= h <= usize::MAX,
    ensures
        neighbours_seq(w, h, 0, 0).len() == 2,
        h % 2 == 0 ==> neighbours_seq(w, h, w - 1, h - 1).len() == 2,
        neighbours_seq(w, h, w - 1, 0).len() == 3,
        h % 2 == 0 ==> neighbours_seq(w, h, 0, h - 1).len() == 3,
        h % 2 == 1 ==> neighbours_seq(w, h, 0, h - 1).len() == 2,
        h % 2 == 1 ==> neighbours_seq(w, h, w - 1, h - 1).len() == 3,
    {
    reveal(neighbours_seq);
    reveal(band_seq);
}

/// A rim tile that is not a corner has between three and five neighbours.
pub proof fn lemma_neighbours_edges(w: int, h: int, x: int, y: int)
    requires
        2 <= w <= usize::MAX,
        2 <= h <= usize::MAX,
        0 <= x < w,
        0 <= y < h,
        x == 0 || x == w - 1 || y == 0 || y == h - 1,
        !((x == 0 || x == w - 1) && (y == 0 || y == h - 1)),
    ensures
        3 <= neighbours_seq(w, h, x, y).len() <= 5,
{
    reveal(neighbours_seq);
    reveal(band_seq);
}

/// Toggling the mark of a hidden tile twice restores the board exactly.
pub proof fn lemma_mark_toggle_twice(g0: HexGrid, g1: HexGrid, g2: HexGrid, x: int, y: int)
    requires
        g0.wf(),
        HexGrid::mark_toggled(g0, g1, x, y),
        HexGrid::mark_toggled(g1, g2, x, y),
    ensures
        g2.tiles() == g0.tiles(),
        g2.mines_loaded == g0.mines_loaded,
        g2.mine_count == g0.mine_count,
{
    assert(flip_mark(flip_mark(g0.tile_at(x, y))) == g0.tile_at(x, y));
    assert(g1.tiles()[x] == g0.tiles()[x].update(y, flip_mark(g0.tile_at(x, y))));
    assert(g1.tile_at(x, y) == flip_mark(g0.tile_at(x, y)));
    assert(g1.tiles()[x].update(y, flip_mark(g1.tile_at(x, y))) =~= g0.tiles()[x]);
    assert(g2.tiles() =~= g0.tiles());
}

/// A board whose tiles all carry `mine == false` has a zero mine total.
proof fn lemma_no_mines_zero_total(g: Seq<Seq<HexTile>>)
    requires
        forall|x: int, y: int|
            0 <= x < g.len() && 0 <= y < g[x].len() ==> !(#[trigger] g[x][y]).mine,
    ensures
        total_mines(g) == 0,
    decreases g.len(),
{
    if g.len() > 0 {
        lemma_col_no_mines_zero(g[0]);
        assert forall|x: int, y: int|
            0 <= x < g.drop_first().len() && 0 <= y < g.drop_first()[x].len() implies !(
        #[trigger] g.drop_first()[x][y]).mine by {
            assert(g.drop_first()[x] == g[x + 1]);
        }
        lemma_no_mines_zero_total(g.drop_first());
    }
}

/// A column whose tiles all carry `mine == false` has a zero mine count.
proof fn lemma_col_no_mines_zero(col: Seq<HexTile>)
    requires
        forall|j: int| 0 <= j < col.len() ==> !(#[trigger] col[j]).mine,
    ensures
        crate::counting::col_mines(col) == 0,
    decreases col.len(),
{
    if col.len() > 0 {
        assert forall|j: int| 0 <= j < col.drop_first().len() implies !(
        #[trigger] col.drop_first()[j]).mine by {
            assert(col.drop_first()[j] == col[j + 1]);
        }
        lemma_col_no_mines_zero(col.drop_first());
    }
}

} // verus!
