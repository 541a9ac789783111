//! The square grid: a cell matrix plus the registry of placed ships, with
//! deterministic attack resolution.

use vstd::prelude::*;

use crate::seed::Seed;
use crate::ship::DamageResult;
use crate::ship::Ship;

verus! {

/// Damage state of one grid cell that a ship occupies.
#[derive(Clone, Copy, Debug, PartialEq, Eq, Structural)]
pub enum SegmentState {
    Fine,
    Damaged,
}

/// One cell of the matrix: free water, or one segment of the ship registered
/// under `ship_id`.
#[derive(Clone, Copy, Debug, PartialEq, Eq, Structural)]
pub enum Cell {
    Empty,
    Segment { ship_id: usize, state: SegmentState },
}

/// Every way a grid operation can fail.
#[derive(Clone, Copy, Debug, PartialEq, Eq, Structural)]
pub enum FieldError {
    /// Recoverable: an attack coordinate at or beyond the grid side (the
    /// payload is the side, so the caller can reprompt).
    OutOfRange(usize),
    /// Fatal at setup time: no admissible placement line exists for a ship.
    Full,
    /// Fatal internal-consistency: a placement pair or a stored head that is
    /// not axis-aligned with the cell at hand.
    NotALine,
    /// Caller-bug propagated from the ship's own damage resolution.
    BadSegment,
}

/// Every row of `m` is as long as `m` itself.
pub open spec fn is_square(m: Seq<Vec<Cell>>) -> bool {
    forall|x: int| 0 <= x < m.len() ==> (#[trigger] m[x])@.len() == m.len()
}

/// Cells `(x, y0) .. (x, y0 + len)` of row `x` are all empty.
pub open spec fn row_clear(m: Seq<Vec<Cell>>, x: int, y0: int, len: int) -> bool {
    forall|j: int| y0 <= j < y0 + len ==> m[x]@[j] == Cell::Empty
}

/// Cells `(x0, y) .. (x0 + len, y)` of column `y` are all empty.
pub open spec fn col_clear(m: Seq<Vec<Cell>>, y: int, x0: int, len: int) -> bool {
    forall|j: int| x0 <= j < x0 + len ==> m[j]@[y] == Cell::Empty
}

/// Row `x` of the matrix, as one cell sequence.
pub open spec fn row_seq(m: Seq<Vec<Cell>>, x: int) -> Seq<Cell> {
    Seq::new(m.len(), |j: int| m[x]@[j])
}

/// Column `y` of the matrix, as one cell sequence.
pub open spec fn col_seq(m: Seq<Vec<Cell>>, y: int) -> Seq<Cell> {
    Seq::new(m.len(), |j: int| m[j]@[y])
}

/// Number of occupied cells among the first `j` cells of `row`.
pub open spec fn occ_prefix(row: Seq<Cell>, j: int) -> int
    decreases j,
{
    if j <= 0 {
        0
    } else {
        occ_prefix(row, j - 1) + (if row[j - 1] == Cell::Empty {
            0int
        } else {
            1int
        })
    }
}

/// Number of occupied cells in the first `x` rows of the matrix.
pub open spec fn occ_upto(m: Seq<Vec<Cell>>, x: int) -> int
    decreases x,
{
    if x <= 0 {
        0
    } else {
        occ_upto(m, x - 1) + occ_prefix(m[x - 1]@, m[x - 1]@.len() as int)
    }
}

/// Number of occupied cells in the whole matrix.
pub open spec fn occ_total(m: Seq<Vec<Cell>>) -> int {
    occ_upto(m, m.len() as int)
}

/// Sum of the lengths of the first `k` ships.
pub open spec fn len_sum(ships: Seq<Ship>, k: int) -> int
    decreases k,
{
    if k <= 0 {
        0
    } else {
        len_sum(ships, k - 1) + ships[k - 1].length()
    }
}

/// Some cell of the window `[s, s + l)` of `row` is occupied.
spec fn window_blocked(row: Seq<Cell>, s: int, l: int) -> bool {
    exists|p: int| s <= p < s + l && row[p] != Cell::Empty
}

proof fn lemma_occ_prefix_nonneg(row: Seq<Cell>, j: int)
    ensures
        occ_prefix(row, j) >= 0,
    decreases j,
{
    if j > 0 {
        lemma_occ_prefix_nonneg(row, j - 1);
    }
}

proof fn lemma_occ_prefix_mono(row: Seq<Cell>, j1: int, j2: int)
    requires
        j1 <= j2,
    ensures
        occ_prefix(row, j1) <= occ_prefix(row, j2),
    decreases j2 - j1,
{
    if j1 < j2 {
        lemma_occ_prefix_mono(row, j1, j2 - 1);
    }
}

/// A row all of whose length-`l` windows hold an occupied cell has at least
/// `k` occupied cells among its first `k * l`: each of the `k` disjoint
/// aligned windows contributes one.
proof fn lemma_blocked_row_occ(row: Seq<Cell>, l: int, k: int)
    requires
        1 <= l,
        0 <= k,
        k * l <= row.len(),
        forall|s: int| 0 <= s && s + l <= row.len() ==> #[trigger] window_blocked(row, s, l),
    ensures
        occ_prefix(row, k * l) >= k,
    decreases k,
{
    if k > 0 {
        assert(0 <= (k - 1) * l && (k - 1) * l == k * l - l) by (nonlinear_arith)
            requires
                1 <= l && 1 <= k,
        ;
        lemma_blocked_row_occ(row, l, k - 1);
        let s = k * l - l;
        assert(window_blocked(row, s, l));
        let p = choose|p: int| s <= p < s + l && row[p] != Cell::Empty;
        lemma_occ_prefix_mono(row, s, p);
        assert(occ_prefix(row, p + 1) == occ_prefix(row, p) + 1);
        lemma_occ_prefix_mono(row, p + 1, k * l);
        assert(occ_prefix(row, s) >= k - 1);
        assert(occ_prefix(row, k * l) >= occ_prefix(row, p + 1));
    } else {
        assert(k * l == 0) by (nonlinear_arith)
            requires
                k == 0,
        ;
    }
}

/// If each of the first `x` rows holds at least `b` occupied cells, the
/// matrix holds at least `x * b` among them.
proof fn lemma_occ_upto_lower(m: Seq<Vec<Cell>>, b: int, x: int)
    requires
        0 <= b,
        0 <= x <= m.len(),
        forall|i: int|
            0 <= i < m.len() ==> occ_prefix((#[trigger] m[i])@, m[i]@.len() as int) >= b,
    ensures
        occ_upto(m, x) >= x * b,
    decreases x,
{
    if x > 0 {
        lemma_occ_upto_lower(m, b, x - 1);
        assert(occ_prefix(m[x - 1]@, m[x - 1]@.len() as int) >= b);
        assert((x - 1) * b + b == x * b) by (nonlinear_arith);
    } else {
        assert(x * b == 0) by (nonlinear_arith)
            requires
                x == 0,
        ;
    }
}

/// A square matrix too lightly occupied to block every row always offers a
/// fit: with fewer than `n * (n / l)` occupied cells, some row must still
/// hold `l` contiguous empty cells, since blocking a row takes an occupied
/// cell in each of its `n / l` disjoint aligned windows.
proof fn lemma_light_grid_has_fit(m: Seq<Vec<Cell>>, l: int)
    requires
        is_square(m),
        1 <= l,
        occ_total(m) < m.len() * ((m.len() as int) / l),
    ensures
        has_fit(m, l),
{
    let n = m.len() as int;
    let b = n / l;
    vstd::arithmetic::div_mod::lemma_fundamental_div_mod(n, l);
    assert(b >= 0 && b * l <= n) by (nonlinear_arith)
        requires
            n == l * b + n % l && 0 <= n % l < l && 0 <= n && 1 <= l,
    ;
    if !has_fit(m, l) {
        assert forall|i: int| 0 <= i < n implies occ_prefix(
            (#[trigger] m[i])@,
            m[i]@.len() as int,
        ) >= b by {
            assert(m[i]@.len() == n);
            assert forall|s: int| 0 <= s && s + l <= n implies #[trigger] window_blocked(
                m[i]@,
                s,
                l,
            ) by {
                if !window_blocked(m[i]@, s, l) {
                    assert forall|j: int| s <= j < s + l implies m[i]@[j] == Cell::Empty by {
                        if m[i]@[j] != Cell::Empty {
                            assert(window_blocked(m[i]@, s, l));
                        }
                    }
                    assert(row_clear(m, i, s, l));
                    assert(has_fit(m, l));
                }
            }
            lemma_blocked_row_occ(m[i]@, l, b);
            lemma_occ_prefix_mono(m[i]@, b * l, n);
        }
        lemma_occ_upto_lower(m, b, n);
        assert(occ_total(m) >= n * b);
        assert(false);
    }
}

/// A row of empty cells counts no occupied cell in any prefix.
proof fn lemma_occ_prefix_all_empty(row: Seq<Cell>, j: int)
    requires
        j <= row.len(),
        forall|t: int| 0 <= t < row.len() ==> row[t] == Cell::Empty,
    ensures
        occ_prefix(row, j) == 0,
    decreases j,
{
    if j > 0 {
        lemma_occ_prefix_all_empty(row, j - 1);
    }
}

/// An all-empty matrix counts no occupied cell.
proof fn lemma_occ_upto_all_empty(m: Seq<Vec<Cell>>, x: int)
    requires
        0 <= x <= m.len(),
        forall|i: int, t: int|
            0 <= i < m.len() && 0 <= t < m[i]@.len() ==> (#[trigger] m[i]@[t]) == Cell::Empty,
    ensures
        occ_upto(m, x) == 0,
    decreases x,
{
    if x > 0 {
        lemma_occ_upto_all_empty(m, x - 1);
        lemma_occ_prefix_all_empty(m[x - 1]@, m[x - 1]@.len() as int);
    }
}

/// Overwriting exactly the empty cells `[s, s + l)` of a row with occupied
/// ones raises the occupied count of a prefix by the part of the span that
/// the prefix covers.
proof fn lemma_occ_prefix_span(r1: Seq<Cell>, r2: Seq<Cell>, s: int, l: int, j: int)
    requires
        r1.len() == r2.len(),
        0 <= s,
        0 <= l,
        s + l <= r1.len(),
        j <= r1.len(),
        forall|t: int| 0 <= t < r1.len() && !(s <= t < s + l) ==> (#[trigger] r2[t]) == r1[t],
        forall|t: int|
            s <= t < s + l ==> (#[trigger] r1[t]) == Cell::Empty && r2[t] != Cell::Empty,
    ensures
        occ_prefix(r2, j) == occ_prefix(r1, j) + (if j <= s {
            0int
        } else if j <= s + l {
            j - s
        } else {
            l
        }),
    decreases j,
{
    if j > 0 {
        lemma_occ_prefix_span(r1, r2, s, l, j - 1);
    }
}

/// If only row `x0` of the matrix changed, and its occupied count rose by
/// `d`, the matrix total rose by `d` once the prefix covers that row.
proof fn lemma_occ_upto_one_row(m1: Seq<Vec<Cell>>, m2: Seq<Vec<Cell>>, x0: int, d: int, x: int)
    requires
        m1.len() == m2.len(),
        0 <= x0 < m1.len(),
        x <= m1.len(),
        forall|i: int| 0 <= i < m1.len() && i != x0 ==> (#[trigger] m2[i])@ == m1[i]@,
        m2[x0]@.len() == m1[x0]@.len(),
        occ_prefix(m2[x0]@, m2[x0]@.len() as int) == occ_prefix(m1[x0]@, m1[x0]@.len() as int)
            + d,
    ensures
        occ_upto(m2, x) == occ_upto(m1, x) + (if x0 < x {
            d
        } else {
            0int
        }),
    decreases x,
{
    if x > 0 {
        lemma_occ_upto_one_row(m1, m2, x0, d, x - 1);
    }
}

/// If rows `[s, s + l)` each gained one occupied cell and every other row is
/// unchanged, the matrix total over a prefix rose by the part of the span
/// that the prefix covers.
proof fn lemma_occ_upto_col_span(m1: Seq<Vec<Cell>>, m2: Seq<Vec<Cell>>, s: int, l: int, x: int)
    requires
        m1.len() == m2.len(),
        0 <= s,
        0 <= l,
        s + l <= m1.len(),
        x <= m1.len(),
        forall|i: int| 0 <= i < m1.len() && !(s <= i < s + l) ==> (#[trigger] m2[i])@ == m1[i]@,
        forall|i: int|
            s <= i < s + l ==> (#[trigger] m2[i])@.len() == m1[i]@.len() && occ_prefix(
                m2[i]@,
                m2[i]@.len() as int,
            ) == occ_prefix(m1[i]@, m1[i]@.len() as int) + 1,
    ensures
        occ_upto(m2, x) == occ_upto(m1, x) + (if x <= s {
            0int
        } else if x <= s + l {
            x - s
        } else {
            l
        }),
    decreases x,
{
    if x > 0 {
        lemma_occ_upto_col_span(m1, m2, s, l, x - 1);
    }
}

/// Some row or some column holds `len` contiguous empty cells.
pub open spec fn has_fit(m: Seq<Vec<Cell>>, len: int) -> bool {
    ||| exists|x: int, s: int|
        0 <= x < m.len() && 0 <= s && s + len <= m.len() && #[trigger] row_clear(m, x, s, len)
    ||| exists|y: int, s: int|
        0 <= y < m.len() && 0 <= s && s + len <= m.len() && #[trigger] col_clear(m, y, s, len)
}

/// The pair `hd`/`tl` shares exactly one axis and the normalized half-open
/// span between them is `len` empty in-bounds cells. With `len >= 1` a pair
/// sharing both coordinates can never satisfy this.
pub open spec fn fit_pair_ok(
    m: Seq<Vec<Cell>>,
    hd: (usize, usize),
    tl: (usize, usize),
    len: int,
) -> bool {
    if hd.0 == tl.0 {
        let lo = if hd.1 <= tl.1 {
            hd.1 as int
        } else {
            tl.1 as int
        };
        let hi = if hd.1 <= tl.1 {
            tl.1 as int
        } else {
            hd.1 as int
        };
        &&& (hd.0 as int) < m.len()
        &&& hi - lo == len
        &&& hi <= m.len()
        &&& row_clear(m, hd.0 as int, lo, len)
    } else if hd.1 == tl.1 {
        let lo = if hd.0 <= tl.0 {
            hd.0 as int
        } else {
            tl.0 as int
        };
        let hi = if hd.0 <= tl.0 {
            tl.0 as int
        } else {
            hd.0 as int
        };
        &&& (hd.1 as int) < m.len()
        &&& hi - lo == len
        &&& hi <= m.len()
        &&& col_clear(m, hd.1 as int, lo, len)
    } else {
        false
    }
}

/// One registry entry: the stored head coordinate, the placement axis, and
/// the ship itself.
#[derive(Clone, Copy, Debug)]
struct Placement {
    head_x: usize,
    head_y: usize,
    horiz: bool,
    ship: Ship,
}

/// The playing surface: a square matrix of cells and the append-only ship
/// registry. The strategy `S` is consulted during construction only.
pub struct Field<S: Seed> {
    matrix: Vec<Vec<Cell>>,
    ships: Vec<Placement>,
    size: usize,
    _seed: core::marker::PhantomData<S>,
}

impl<S: Seed> Field<S> {
    /// Side of the square matrix.
    pub closed spec fn side(&self) -> int {
        self.size as int
    }

    /// The matrix itself.
    pub closed spec fn cells(&self) -> Seq<Vec<Cell>> {
        self.matrix@
    }

    /// The cell at row `x`, column `y`.
    pub open spec fn cell(&self, x: int, y: int) -> Cell {
        self.cells()[x]@[y]
    }

    /// Number of registered ships.
    pub closed spec fn ship_count(&self) -> int {
        self.ships@.len() as int
    }

    /// The ship registered under id `k`.
    pub closed spec fn ship_at(&self, k: int) -> Ship {
        self.ships@[k].ship
    }

    /// The stored head coordinate of ship `k`.
    pub closed spec fn head_of(&self, k: int) -> (int, int) {
        (self.ships@[k].head_x as int, self.ships@[k].head_y as int)
    }

    /// True iff ship `k` lies along a row.
    pub closed spec fn horiz(&self, k: int) -> bool {
        self.ships@[k].horiz
    }

    /// Coordinate of segment `j` of ship `k`: the head shifted `j` cells
    /// along the placement axis.
    pub open spec fn fp_cell(&self, k: int, j: int) -> (int, int) {
        if self.horiz(k) {
            (self.head_of(k).0, self.head_of(k).1 + j)
        } else {
            (self.head_of(k).0 + j, self.head_of(k).1)
        }
    }

    /// Ship `k` is well formed, its straight-line footprint lies inside the
    /// matrix, and every footprint cell records the ship's id and the damage
    /// state of that segment.
    pub open spec fn placement_ok(&self, k: int) -> bool {
        let l = self.ship_at(k).length() as int;
        &&& self.ship_at(k).wf()
        &&& 0 <= self.head_of(k).0
        &&& 0 <= self.head_of(k).1
        &&& (if self.horiz(k) {
            self.head_of(k).0 < self.side() && self.head_of(k).1 + l <= self.side()
        } else {
            self.head_of(k).0 + l <= self.side() && self.head_of(k).1 < self.side()
        })
        &&& forall|j: int|
            0 <= j < l ==> self.cell((#[trigger] self.fp_cell(k, j)).0, self.fp_cell(k, j).1)
                == (Cell::Segment {
                ship_id: k as usize,
                state: if self.ship_at(k).seg_damaged(j) {
                    SegmentState::Damaged
                } else {
                    SegmentState::Fine
                },
            })
    }

    /// If the cell at `(x, y)` references a ship, that ship is registered and
    /// `(x, y)` is one of its footprint cells.
    pub open spec fn cell_backed(&self, x: int, y: int) -> bool {
        match self.cell(x, y) {
            Cell::Empty => true,
            Cell::Segment { ship_id, state } => {
                &&& ship_id < self.ship_count()
                &&& exists|j: int|
                    0 <= j < self.ship_at(ship_id as int).length() && #[trigger] self.fp_cell(
                        ship_id as int,
                        j,
                    ) == (x, y)
            },
        }
    }

    /// The grid invariant: a square matrix, every registered ship placed on a
    /// straight in-bounds footprint of its own cells, and every occupied cell
    /// backed by the registry.
    pub open spec fn wf(&self) -> bool {
        &&& self.cells().len() == self.side()
        &&& 1 <= self.side()
        &&& is_square(self.cells())
        &&& forall|k: int| 0 <= k < self.ship_count() ==> #[trigger] self.placement_ok(k)
        &&& forall|x: int, y: int|
            0 <= x < self.side() && 0 <= y < self.side() ==> #[trigger] self.cell_backed(x, y)
    }

    /// Ask the strategy for a line, stamp the span it returns, and append the
    /// ship to the registry. `Full` reports that the strategy found no line,
    /// and only when truly no row or column can hold the ship.
    #[verifier::loop_isolation(false)]
    fn put_ship(&mut self, ship: Ship) -> (r: Result<(), FieldError>)
        requires
            old(self).wf(),
            ship.wf(),
            forall|i: int| !ship.seg_damaged(i),
        ensures
            final(self).wf(),
            final(self).side() == old(self).side(),
            r is Err ==> *final(self) == *old(self) && r == Err::<(), FieldError>(FieldError::Full)
                && !has_fit(old(self).cells(), ship.length() as int),
            has_fit(old(self).cells(), ship.length() as int) ==> r is Ok,
            r is Ok ==> final(self).ship_count() == old(self).ship_count() + 1
                && final(self).ship_at(old(self).ship_count()) == ship,
            r is Ok ==> forall|k: int|
                0 <= k < old(self).ship_count() ==> final(self).ship_at(k) == old(self).ship_at(k)
                    && final(self).head_of(k) == old(self).head_of(k) && final(self).horiz(k)
                    == old(self).horiz(k),
            r is Ok ==> occ_total(final(self).cells()) == occ_total(old(self).cells())
                + ship.length(),
    {
        let id = self.ships.len();
        let ghost l = ship.length() as int;

        let (hd, tl) = match S::get_fit_line(&ship, &self.matrix) {
            Some(pair) => pair,
            None => {
                return Err(FieldError::Full);
            },
        };
        let (x0, y0) = hd;
        let (x1, y1) = tl;

        if x0 == x1 {
            let (start, end) = if y0 <= y1 {
                (y0, y1)
            } else {
                (y1, y0)
            };
            assert(end - start == l && end <= self.side() && x0 < self.side());
            assert(row_clear(self.cells(), x0 as int, start as int, l));

            let mut j = start;
            while j < end
                invariant
                    start <= j <= end,
                    x0 < old(self).side(),
                    end <= old(self).side(),
                    self.size == old(self).size,
                    self.ships == old(self).ships,
                    self.cells().len() == self.side(),
                    is_square(self.cells()),
                    forall|x: int, y: int|
                        0 <= x < self.side() && 0 <= y < self.side() ==> #[trigger] self.cell(x, y)
                            == (if x == x0 && start <= y < j {
                            Cell::Segment { ship_id: id, state: SegmentState::Fine }
                        } else {
                            old(self).cell(x, y)
                        }),
                decreases end - j,
            {
                let ghost snap = *self;
                self.matrix[x0].set(
                    j,
                    Cell::Segment { ship_id: id, state: SegmentState::Fine },
                );
                proof {
                    assert(self.cells() == snap.cells().update(
                        x0 as int,
                        self.cells()[x0 as int],
                    ));
                    assert(self.cells()[x0 as int]@ == snap.cells()[x0 as int]@.update(
                        j as int,
                        Cell::Segment { ship_id: id, state: SegmentState::Fine },
                    ));
                    assert forall|x: int, y: int|
                        0 <= x < self.side() && 0 <= y < self.side() implies #[trigger] self.cell(
                        x,
                        y,
                    ) == (if x == x0 && start <= y < j + 1 {
                        Cell::Segment { ship_id: id, state: SegmentState::Fine }
                    } else {
                        old(self).cell(x, y)
                    }) by {
                        if x == x0 {
                            if y == j {
                            } else {
                                assert(self.cell(x, y) == snap.cell(x, y));
                            }
                        } else {
                            assert(self.cells()[x] == snap.cells()[x]);
                        }
                    }
                }
                j = j + 1;
            }

            let ghost done = *self;
            self.ships.push(Placement { head_x: x0, head_y: start, horiz: true, ship });

            proof {
                assert forall|x: int, y: int|
                    0 <= x < self.side() && 0 <= y < self.side() implies #[trigger] self.cell(x, y)
                    == (if x == x0 && start <= y < start + l {
                    Cell::Segment { ship_id: id, state: SegmentState::Fine }
                } else {
                    old(self).cell(x, y)
                }) by {
                    assert(self.cell(x, y) == done.cell(x, y));
                }
                self.lemma_wf_after_stamp(*old(self), ship, id, x0 as int, start as int, true);

                // the stamp turned exactly `l` empty cells of row `x0`
                // occupied, so the matrix count rose by `l`
                let m1 = old(self).cells();
                let m2 = self.cells();
                let n = old(self).side();
                assert(row_clear(m1, x0 as int, start as int, l));
                assert forall|t: int|
                    0 <= t < m1[x0 as int]@.len() && !((start as int) <= t < start + l) implies (
                #[trigger] m2[x0 as int]@[t]) == m1[x0 as int]@[t] by {
                    assert(self.cell(x0 as int, t) == old(self).cell(x0 as int, t));
                }
                assert forall|t: int| (start as int) <= t < start + l implies (#[trigger] m1[x0
                    as int]@[t]) == Cell::Empty && m2[x0 as int]@[t] != Cell::Empty by {
                    assert(self.cell(x0 as int, t) == (Cell::Segment {
                        ship_id: id,
                        state: SegmentState::Fine,
                    }));
                }
                lemma_occ_prefix_span(m1[x0 as int]@, m2[x0 as int]@, start as int, l, n);
                assert forall|i: int| 0 <= i < n && i != x0 implies (#[trigger] m2[i])@
                    == m1[i]@ by {
                    assert forall|t: int| 0 <= t < n implies m2[i]@[t] == m1[i]@[t] by {
                        assert(self.cell(i, t) == old(self).cell(i, t));
                    }
                    assert(m2[i]@ =~= m1[i]@);
                }
                lemma_occ_upto_one_row(m1, m2, x0 as int, l, n);
                assert(occ_total(m2) == occ_total(m1) + l);
            }
            Ok(())
        } else if y0 == y1 {
            let (start, end) = if x0 <= x1 {
                (x0, x1)
            } else {
                (x1, x0)
            };
            assert(end - start == l && end <= self.side() && y0 < self.side());
            assert(col_clear(self.cells(), y0 as int, start as int, l));

            let mut j = start;
            while j < end
                invariant
                    start <= j <= end,
                    y0 < old(self).side(),
                    end <= old(self).side(),
                    self.size == old(self).size,
                    self.ships == old(self).ships,
                    self.cells().len() == self.side(),
                    is_square(self.cells()),
                    forall|x: int, y: int|
                        0 <= x < self.side() && 0 <= y < self.side() ==> #[trigger] self.cell(x, y)
                            == (if y == y0 && start <= x < j {
                            Cell::Segment { ship_id: id, state: SegmentState::Fine }
                        } else {
                            old(self).cell(x, y)
                        }),
                decreases end - j,
            {
                let ghost snap = *self;
                self.matrix[j].set(
                    y0,
                    Cell::Segment { ship_id: id, state: SegmentState::Fine },
                );
                proof {
                    assert(self.cells() == snap.cells().update(j as int, self.cells()[j as int]));
                    assert(self.cells()[j as int]@ == snap.cells()[j as int]@.update(
                        y0 as int,
                        Cell::Segment { ship_id: id, state: SegmentState::Fine },
                    ));
                    assert forall|x: int, y: int|
                        0 <= x < self.side() && 0 <= y < self.side() implies #[trigger] self.cell(
                        x,
                        y,
                    ) == (if y == y0 && start <= x < j + 1 {
                        Cell::Segment { ship_id: id, state: SegmentState::Fine }
                    } else {
                        old(self).cell(x, y)
                    }) by {
                        if x == j {
                            if y == y0 {
                            } else {
                                assert(self.cell(x, y) == snap.cell(x, y));
                            }
                        } else {
                            assert(self.cells()[x] == snap.cells()[x]);
                            assert(self.cell(x, y) == snap.cell(x, y));
                        }
                    }
                }
                j = j + 1;
            }

            let ghost done = *self;
            self.ships.push(Placement { head_x: start, head_y: y0, horiz: false, ship });

            proof {
                assert forall|x: int, y: int|
                    0 <= x < self.side() && 0 <= y < self.side() implies #[trigger] self.cell(x, y)
                    == (if y == y0 && start <= x < start + l {
                    Cell::Segment { ship_id: id, state: SegmentState::Fine }
                } else {
                    old(self).cell(x, y)
                }) by {
                    assert(self.cell(x, y) == done.cell(x, y));
                }
                self.lemma_wf_after_stamp(*old(self), ship, id, start as int, y0 as int, false);

                // the stamp turned one empty cell of each row of the span
                // occupied, so the matrix count rose by `l`
                let m1 = old(self).cells();
                let m2 = self.cells();
                let n = old(self).side();
                assert(col_clear(m1, y0 as int, start as int, l));
                assert forall|i: int|
                    0 <= i < n && !((start as int) <= i < start + l) implies (#[trigger] m2[i])@
                    == m1[i]@ by {
                    assert forall|t: int| 0 <= t < n implies m2[i]@[t] == m1[i]@[t] by {
                        assert(self.cell(i, t) == old(self).cell(i, t));
                    }
                    assert(m2[i]@ =~= m1[i]@);
                }
                assert forall|i: int| (start as int) <= i < start + l implies (#[trigger] m2[i])@
                    .len() == m1[i]@.len() && occ_prefix(m2[i]@, m2[i]@.len() as int)
                    == occ_prefix(m1[i]@, m1[i]@.len() as int) + 1 by {
                    assert(old(self).cell(i, y0 as int) == Cell::Empty);
                    assert(self.cell(i, y0 as int) == (Cell::Segment {
                        ship_id: id,
                        state: SegmentState::Fine,
                    }));
                    assert forall|t: int|
                        0 <= t < m1[i]@.len() && !((y0 as int) <= t < y0 + 1) implies (
                    #[trigger] m2[i]@[t]) == m1[i]@[t] by {
                        assert(self.cell(i, t) == old(self).cell(i, t));
                    }
                    lemma_occ_prefix_span(m1[i]@, m2[i]@, y0 as int, 1, n);
                }
                lemma_occ_upto_col_span(m1, m2, start as int, l, n);
                assert(occ_total(m2) == occ_total(m1) + l);
            }
            Ok(())
        } else {
            proof {
                assert(false);
            }
            Err(FieldError::NotALine)
        }
    }

    /// After stamping the footprint of a fresh `ship` with head `(hx, hy)`
    /// along `horiz` onto a well-formed grid and appending the registry
    /// entry, the grid invariant holds again.
    proof fn lemma_wf_after_stamp(
        &self,
        prev: Field<S>,
        ship: Ship,
        id: usize,
        hx: int,
        hy: int,
        horiz: bool,
    )
        requires
            prev.wf(),
            ship.wf(),
            forall|i: int| !ship.seg_damaged(i),
            id == prev.ship_count(),
            self.side() == prev.side(),
            self.ship_count() == prev.ship_count() + 1,
            self.ships@ == prev.ships@.push(
                Placement {
                    head_x: hx as usize,
                    head_y: hy as usize,
                    horiz,
                    ship,
                },
            ),
            0 <= hx,
            0 <= hy,
            horiz ==> hx < self.side() && hy + ship.length() <= self.side(),
            !horiz ==> hx + ship.length() <= self.side() && hy < self.side(),
            horiz ==> row_clear(prev.cells(), hx, hy, ship.length() as int),
            !horiz ==> col_clear(prev.cells(), hy, hx, ship.length() as int),
            self.cells().len() == self.side(),
            is_square(self.cells()),
            forall|x: int, y: int|
                0 <= x < self.side() && 0 <= y < self.side() ==> #[trigger] self.cell(x, y) == (
                if (if horiz {
                    x == hx && hy <= y < hy + ship.length()
                } else {
                    y == hy && hx <= x < hx + ship.length()
                }) {
                    Cell::Segment { ship_id: id, state: SegmentState::Fine }
                } else {
                    prev.cell(x, y)
                }),
        ensures
            self.wf(),
    {
        let idi = id as int;
        let n = self.side();
        let l = ship.length() as int;

        assert(self.ship_at(idi) == ship);
        assert(self.head_of(idi) == (hx, hy));
        assert(self.horiz(idi) == horiz);
        assert forall|k: int| 0 <= k < idi implies self.ship_at(k) == prev.ship_at(k)
            && self.head_of(k) == prev.head_of(k) && self.horiz(k) == prev.horiz(k) by {
            assert(self.ships@[k] == prev.ships@[k]);
        }

        // the new ship's footprint
        assert forall|j: int| 0 <= j < l implies self.cell(
            (#[trigger] self.fp_cell(idi, j)).0,
            self.fp_cell(idi, j).1,
        ) == (Cell::Segment {
            ship_id: id,
            state: if ship.seg_damaged(j) {
                SegmentState::Damaged
            } else {
                SegmentState::Fine
            },
        }) by {
            let (cx, cy) = self.fp_cell(idi, j);
            assert(0 <= cx < n && 0 <= cy < n);
            assert(self.cell(cx, cy) == (Cell::Segment {
                ship_id: id,
                state: SegmentState::Fine,
            }));
        }
        assert(self.placement_ok(idi));

        // previously registered ships kept their footprints: the stamped
        // cells were empty before, footprint cells were not
        assert forall|k: int| 0 <= k < self.ship_count() implies #[trigger] self.placement_ok(
            k,
        ) by {
            if k < idi {
                assert(prev.placement_ok(k));
                let lk = self.ship_at(k).length() as int;
                assert forall|j: int| 0 <= j < lk implies self.cell(
                    (#[trigger] self.fp_cell(k, j)).0,
                    self.fp_cell(k, j).1,
                ) == (Cell::Segment {
                    ship_id: k as usize,
                    state: if self.ship_at(k).seg_damaged(j) {
                        SegmentState::Damaged
                    } else {
                        SegmentState::Fine
                    },
                }) by {
                    assert(self.fp_cell(k, j) == prev.fp_cell(k, j));
                    let (cx, cy) = prev.fp_cell(k, j);
                    assert(prev.cell(cx, cy) == (Cell::Segment {
                        ship_id: k as usize,
                        state: if prev.ship_at(k).seg_damaged(j) {
                            SegmentState::Damaged
                        } else {
                            SegmentState::Fine
                        },
                    }));
                    assert(prev.cell(cx, cy) != Cell::Empty);
                    if horiz {
                        if cx == hx && hy <= cy < hy + l {
                            assert(prev.cell(cx, cy) == Cell::Empty);
                        }
                    } else {
                        if cy == hy && hx <= cx < hx + l {
                            assert(prev.cell(cx, cy) == Cell::Empty);
                        }
                    }
                }
            }
        }

        // every occupied cell is still backed by the registry
        assert forall|x: int, y: int| 0 <= x < n && 0 <= y < n implies #[trigger] self.cell_backed(
            x,
            y,
        ) by {
            let stamped = if horiz {
                x == hx && hy <= y < hy + l
            } else {
                y == hy && hx <= x < hx + l
            };
            if stamped {
                let j = if horiz {
                    y - hy
                } else {
                    x - hx
                };
                assert(self.cell(x, y) == (Cell::Segment {
                    ship_id: id,
                    state: SegmentState::Fine,
                }));
                assert(0 <= j < self.ship_at(idi).length());
                assert(self.fp_cell(idi, j) == (x, y));
                assert(self.cell_backed(x, y));
            } else {
                assert(self.cell(x, y) == prev.cell(x, y));
                assert(prev.cell_backed(x, y));
                match prev.cell(x, y) {
                    Cell::Empty => {},
                    Cell::Segment { ship_id, state } => {
                        let sid = ship_id as int;
                        assert(0 <= sid < prev.ship_count());
                        let j = choose|j: int|
                            0 <= j < prev.ship_at(sid).length() && #[trigger] prev.fp_cell(sid, j)
                                == (x, y);
                        assert(self.ship_at(sid) == prev.ship_at(sid) && self.head_of(sid)
                            == prev.head_of(sid) && self.horiz(sid) == prev.horiz(sid));
                        assert(self.fp_cell(sid, j) == (x, y));
                        assert(0 <= j < self.ship_at(sid).length());
                        assert(self.cell_backed(x, y));
                    },
                }
                assert(self.cell_backed(x, y));
            }
        }
    }

    /// Ship `k` has every segment damaged.
    pub open spec fn ship_dead(&self, k: int) -> bool {
        self.ship_at(k).dead()
    }

    /// Every registered ship is dead.
    pub open spec fn fleet_destroyed(&self) -> bool {
        forall|k: int| 0 <= k < self.ship_count() ==> #[trigger] self.ship_dead(k)
    }

    /// The segment index of cell `(x, y)` within ship `k`: the distance from
    /// the stored head along the placement axis.
    pub open spec fn seg_index(&self, k: int, x: int, y: int) -> int {
        if self.horiz(k) {
            y - self.head_of(k).1
        } else {
            x - self.head_of(k).0
        }
    }

    /// Resolve an attack: bounds-check, then `Miss` on empty water, else let
    /// the hit ship resolve the segment, and on a fresh hit mark the cell
    /// damaged. Out-of-range coordinates are the only error and nothing else
    /// ever changes more than the one cell and the one ship.
    pub fn attack(&mut self, x: usize, y: usize) -> (r: Result<DamageResult, FieldError>)
        requires
            old(self).wf(),
        ensures
            final(self).wf(),
            final(self).side() == old(self).side(),
            final(self).ship_count() == old(self).ship_count(),
            forall|k: int|
                0 <= k < old(self).ship_count() ==> (#[trigger] final(self).ship_at(k)).length()
                    == old(self).ship_at(k).length() && final(self).head_of(k) == old(self).head_of(k) && final(self).horiz(k) == old(self).horiz(k),
            forall|k: int, i: int|
                0 <= k < old(self).ship_count() && old(self).ship_at(k).seg_damaged(i)
                    ==> #[trigger] final(self).ship_at(k).seg_damaged(i),
            r is Err <==> (x >= old(self).side() || y >= old(self).side()),
            r is Err ==> r == Err::<DamageResult, FieldError>(
                FieldError::OutOfRange(old(self).side() as usize),
            ) && *final(self) == *old(self),
            x < old(self).side() && y < old(self).side() && old(self).cell(x as int, y as int)
                == Cell::Empty ==> r == Ok::<DamageResult, FieldError>(DamageResult::Miss)
                && *final(self) == *old(self),
            (old(self).cell(x as int, y as int) matches Cell::Segment { ship_id, state } ==> {
                let inb = x < old(self).side() && y < old(self).side();
                let k = ship_id as int;
                let seg = old(self).seg_index(k, x as int, y as int);
                &&& (inb && state == SegmentState::Damaged ==> r == Ok::<DamageResult, FieldError>(
                    DamageResult::Miss,
                ) && *final(self) == *old(self))
                &&& (inb && old(self).ship_at(k).seg_damaged(seg) ==> r == Ok::<
                    DamageResult,
                    FieldError,
                >(DamageResult::Miss) && *final(self) == *old(self))
                &&& (inb && !old(self).ship_at(k).seg_damaged(seg) ==> {
                    &&& final(self).ship_at(k).seg_damaged(seg)
                    &&& forall|i: int|
                        i != seg ==> (#[trigger] final(self).ship_at(k).seg_damaged(i)) == old(self).ship_at(k).seg_damaged(i)
                    &&& forall|k2: int|
                        0 <= k2 < old(self).ship_count() && k2 != k ==> #[trigger] final(self).ship_at(k2) == old(self).ship_at(k2)
                    &&& final(self).cell(x as int, y as int) == (Cell::Segment {
                        ship_id,
                        state: SegmentState::Damaged,
                    })
                    &&& forall|a: int, b: int|
                        0 <= a < old(self).side() && 0 <= b < old(self).side() && !(a == x && b
                            == y) ==> #[trigger] final(self).cell(a, b) == old(self).cell(a, b)
                    &&& r == Ok::<DamageResult, FieldError>(
                        if final(self).ship_at(k).dead() {
                            DamageResult::Destroyed
                        } else {
                            DamageResult::Hit
                        },
                    )
                })
            }),
    {
        if x >= self.size || y >= self.size {
            return Err(FieldError::OutOfRange(self.size));
        }

        let c = self.matrix[x][y];
        match c {
            Cell::Empty => Ok(DamageResult::Miss),
            Cell::Segment { ship_id, state: _ } => {
                proof {
                    assert(self.cell_backed(x as int, y as int));
                }
                let ghost sid = ship_id as int;
                let ghost j = choose|j: int|
                    0 <= j < self.ship_at(sid).length() && #[trigger] self.fp_cell(sid, j) == (
                    x as int,
                    y as int,
                );
                proof {
                    assert(self.placement_ok(sid));
                }

                let head_x = self.ships[ship_id].head_x;
                let head_y = self.ships[ship_id].head_y;

                let segment: usize = if head_x == x {
                    if head_y <= y {
                        y - head_y
                    } else {
                        head_y - y
                    }
                } else if head_y == y {
                    if head_x <= x {
                        x - head_x
                    } else {
                        head_x - x
                    }
                } else {
                    proof {
                        assert(false);
                    }
                    return Err(FieldError::NotALine);
                };
                assert(segment == j && j == self.seg_index(sid, x as int, y as int) && j < 8);

                let mut pl = self.ships[ship_id];
                let dres = match pl.ship.damage(segment as u8) {
                    Ok(d) => d,
                    Err(_) => {
                        proof {
                            assert(false);
                        }
                        return Err(FieldError::BadSegment);
                    },
                };

                match dres {
                    DamageResult::Miss => Ok(DamageResult::Miss),
                    _ => {
                        let ghost prev = *self;
                        self.ships.set(ship_id, pl);
                        self.matrix[x].set(
                            y,
                            Cell::Segment { ship_id, state: SegmentState::Damaged },
                        );
                        proof {
                            assert(self.cells() == prev.cells().update(
                                x as int,
                                self.cells()[x as int],
                            ));
                            assert(self.cells()[x as int]@ == prev.cells()[x as int]@.update(
                                y as int,
                                Cell::Segment { ship_id, state: SegmentState::Damaged },
                            ));
                            self.lemma_wf_after_hit(prev, ship_id, j, x as int, y as int);
                        }
                        Ok(dres)
                    },
                }
            },
        }
    }

    /// After one fresh hit -- ship `sid`'s segment `j` marked damaged and the
    /// single footprint cell `(x, y)` overwritten as damaged -- the grid
    /// invariant holds again.
    proof fn lemma_wf_after_hit(&self, prev: Field<S>, sid: usize, j: int, x: int, y: int)
        requires
            prev.wf(),
            0 <= sid < prev.ship_count(),
            0 <= j < prev.ship_at(sid as int).length(),
            prev.fp_cell(sid as int, j) == (x, y),
            self.side() == prev.side(),
            self.ships@.len() == prev.ships@.len(),
            self.ships@ =~= prev.ships@.update(sid as int, self.ships@[sid as int]),
            self.ships@[sid as int].head_x == prev.ships@[sid as int].head_x,
            self.ships@[sid as int].head_y == prev.ships@[sid as int].head_y,
            self.ships@[sid as int].horiz == prev.ships@[sid as int].horiz,
            self.ship_at(sid as int).wf(),
            self.ship_at(sid as int).length() == prev.ship_at(sid as int).length(),
            self.ship_at(sid as int).seg_damaged(j),
            forall|i: int|
                i != j ==> (#[trigger] self.ship_at(sid as int).seg_damaged(i)) == prev.ship_at(
                    sid as int,
                ).seg_damaged(i),
            self.cells().len() == prev.cells().len(),
            is_square(self.cells()),
            forall|a: int, b: int|
                0 <= a < self.side() && 0 <= b < self.side() ==> #[trigger] self.cell(a, b) == (
                if a == x && b == y {
                    Cell::Segment { ship_id: sid, state: SegmentState::Damaged }
                } else {
                    prev.cell(a, b)
                }),
        ensures
            self.wf(),
    {
        let n = self.side();
        let si = sid as int;

        assert(prev.ships@.len() <= usize::MAX) by {
            assert(prev.ships.len() == prev.ships@.len());
        }
        assert(prev.placement_ok(si));
        assert(prev.fp_cell(si, j) == (x, y));
        assert(prev.cell(x, y) == (Cell::Segment {
            ship_id: sid,
            state: if prev.ship_at(si).seg_damaged(j) {
                SegmentState::Damaged
            } else {
                SegmentState::Fine
            },
        }));

        assert forall|k: int| 0 <= k < self.ship_count() && k != si implies self.ship_at(k)
            == prev.ship_at(k) && self.head_of(k) == prev.head_of(k) && self.horiz(k)
            == prev.horiz(k) by {
            assert(self.ships@[k] == prev.ships@[k]);
        }
        assert(self.head_of(si) == prev.head_of(si) && self.horiz(si) == prev.horiz(si));
        assert forall|k: int, j2: int| 0 <= k < self.ship_count() implies #[trigger] self.fp_cell(
            k,
            j2,
        ) == prev.fp_cell(k, j2) by {
            if k != si {
                assert(self.ships@[k] == prev.ships@[k]);
            }
        }

        assert forall|k: int| 0 <= k < self.ship_count() implies #[trigger] self.placement_ok(
            k,
        ) by {
            assert(prev.placement_ok(k));
            let lk = self.ship_at(k).length() as int;
            assert forall|j2: int| 0 <= j2 < lk implies self.cell(
                (#[trigger] self.fp_cell(k, j2)).0,
                self.fp_cell(k, j2).1,
            ) == (Cell::Segment {
                ship_id: k as usize,
                state: if self.ship_at(k).seg_damaged(j2) {
                    SegmentState::Damaged
                } else {
                    SegmentState::Fine
                },
            }) by {
                let (cx, cy) = prev.fp_cell(k, j2);
                assert(prev.cell(cx, cy) == (Cell::Segment {
                    ship_id: k as usize,
                    state: if prev.ship_at(k).seg_damaged(j2) {
                        SegmentState::Damaged
                    } else {
                        SegmentState::Fine
                    },
                }));
                if cx == x && cy == y {
                    // the overwritten cell: it belongs to ship `sid`, so
                    // `k == sid` and this is exactly segment `j`
                    assert(k as usize == sid);
                    assert(k == si);
                    if self.horiz(si) {
                        assert(j2 == j);
                    } else {
                        assert(j2 == j);
                    }
                    assert(self.cell(cx, cy) == (Cell::Segment {
                        ship_id: sid,
                        state: SegmentState::Damaged,
                    }));
                } else {
                    assert(self.cell(cx, cy) == prev.cell(cx, cy));
                    if k == si {
                        assert(j2 != j);
                        assert(self.ship_at(k).seg_damaged(j2) == prev.ship_at(k).seg_damaged(
                            j2,
                        ));
                    }
                }
            }
        }

        assert forall|a: int, b: int| 0 <= a < n && 0 <= b < n implies #[trigger] self.cell_backed(
            a,
            b,
        ) by {
            if a == x && b == y {
                assert(self.cell(a, b) == (Cell::Segment {
                    ship_id: sid,
                    state: SegmentState::Damaged,
                }));
                assert(self.fp_cell(si, j) == (a, b));
                assert(0 <= j < self.ship_at(si).length());
                assert(self.cell_backed(a, b));
            } else {
                assert(self.cell(a, b) == prev.cell(a, b));
                assert(prev.cell_backed(a, b));
                match prev.cell(a, b) {
                    Cell::Empty => {},
                    Cell::Segment { ship_id, state } => {
                        let k = ship_id as int;
                        let j2 = choose|j2: int|
                            0 <= j2 < prev.ship_at(k).length() && #[trigger] prev.fp_cell(k, j2)
                                == (a, b);
                        assert(self.fp_cell(k, j2) == (a, b));
                        assert(0 <= j2 < self.ship_at(k).length());
                        assert(self.cell_backed(a, b));
                    },
                }
            }
        }
    }

    /// True iff at least one registered ship still has an undamaged segment:
    /// the driver's continue signal.
    #[verifier::loop_isolation(false)]
    pub fn any_fine_ship(&self) -> (r: bool)
        requires
            self.wf(),
        ensures
            r == !self.fleet_destroyed(),
    {
        let mut i: usize = 0;
        while i < self.ships.len()
            invariant
                0 <= i <= self.ship_count(),
                forall|k: int| 0 <= k < i ==> #[trigger] self.ship_dead(k),
            decreases self.ship_count() - i,
        {
            let pl = self.ships[i];
            proof {
                assert(self.placement_ok(i as int));
            }
            if !pl.ship.is_dead() {
                assert(!self.ship_dead(i as int));
                return true;
            }
            i = i + 1;
        }
        false
    }

    /// Side of the square grid.
    pub fn size(&self) -> (r: usize)
        ensures
            r == self.side(),
    {
        self.size
    }

    /// Number of registered ships.
    pub fn num_ships(&self) -> (r: usize)
        ensures
            r == self.ship_count(),
    {
        self.ships.len()
    }

    /// The stored head coordinate of ship `id`.
    pub fn ship_head(&self, id: usize) -> (r: (usize, usize))
        requires
            id < self.ship_count(),
        ensures
            r.0 == self.head_of(id as int).0,
            r.1 == self.head_of(id as int).1,
    {
        (self.ships[id].head_x, self.ships[id].head_y)
    }

    /// Read-only view of one cell, for an external renderer.
    pub fn get_cell(&self, x: usize, y: usize) -> (r: Cell)
        requires
            self.wf(),
            x < self.side(),
            y < self.side(),
        ensures
            r == self.cell(x as int, y as int),
    {
        self.matrix[x][y]
    }

    /// Law: on a well-formed grid, every registered ship occupies exactly its
    /// length of contiguous in-bounds cells along one axis -- segment `j`
    /// sits at the head shifted `j` cells -- and each such cell records the
    /// ship's id and that segment's damage state.
    pub proof fn lemma_ship_footprint(&self, k: int, j: int)
        requires
            self.wf(),
            0 <= k < self.ship_count(),
            0 <= j < self.ship_at(k).length(),
        ensures
            0 <= self.fp_cell(k, j).0 < self.side(),
            0 <= self.fp_cell(k, j).1 < self.side(),
            self.cell(self.fp_cell(k, j).0, self.fp_cell(k, j).1) == (Cell::Segment {
                ship_id: k as usize,
                state: if self.ship_at(k).seg_damaged(j) {
                    SegmentState::Damaged
                } else {
                    SegmentState::Fine
                },
            }),
    {
        assert(self.placement_ok(k));
    }

    /// Law: on a well-formed grid, the footprints of two distinct ships never
    /// share a cell.
    pub proof fn lemma_footprints_disjoint(&self, a: int, b: int, i: int, j: int)
        requires
            self.wf(),
            0 <= a < self.ship_count(),
            0 <= b < self.ship_count(),
            a != b,
            0 <= i < self.ship_at(a).length(),
            0 <= j < self.ship_at(b).length(),
        ensures
            self.fp_cell(a, i) != self.fp_cell(b, j),
    {
        assert(self.ships@.len() <= usize::MAX) by {
            assert(self.ships.len() == self.ships@.len());
        }
        if self.fp_cell(a, i) == self.fp_cell(b, j) {
            self.lemma_ship_footprint(a, i);
            self.lemma_ship_footprint(b, j);
            assert(a as usize == b as usize);
        }
    }

    /// Law: once every registered ship is destroyed, the fleet stays
    /// destroyed under any change that only adds damage -- which is all an
    /// attack ever does to the registry.
    pub proof fn lemma_destroyed_is_permanent(pre: &Field<S>, post: &Field<S>)
        requires
            pre.fleet_destroyed(),
            post.ship_count() == pre.ship_count(),
            forall|k: int|
                0 <= k < pre.ship_count() ==> (#[trigger] post.ship_at(k)).length() == pre.ship_at(
                    k,
                ).length(),
            forall|k: int, i: int|
                0 <= k < pre.ship_count() && pre.ship_at(k).seg_damaged(i)
                    ==> #[trigger] post.ship_at(k).seg_damaged(i),
        ensures
            post.fleet_destroyed(),
    {
        assert forall|k: int| 0 <= k < post.ship_count() implies #[trigger] post.ship_dead(k) by {
            assert(pre.ship_dead(k));
            assert forall|i: int| 0 <= i < post.ship_at(k).length() implies post.ship_at(
                k,
            ).seg_damaged(i) by {
                assert(pre.ship_at(k).seg_damaged(i));
            }
        }
    }

    /// Build an all-empty `size x size` matrix and place every given ship, in
    /// order, where the strategy proposes. Fails with `Full` -- returning no
    /// partial grid -- as soon as the strategy finds no line; an empty fleet
    /// always succeeds, so does a single ship no longer than the side, and so
    /// does any fleet that stays light enough that no placement can block
    /// every row before the next ship arrives.
    #[verifier::loop_isolation(false)]
    pub fn try_create(size: usize, ships: Vec<Ship>) -> (r: Result<Field<S>, FieldError>)
        requires
            1 <= size,
            forall|k: int| 0 <= k < ships@.len() ==> (#[trigger] ships@[k]).wf(),
            forall|k: int, i: int| 0 <= k < ships@.len() ==> !(#[trigger] ships@[k].seg_damaged(i)),
        ensures
            (r matches Ok(f) ==> f.wf() && f.side() == size && f.ship_count() == ships@.len()
                && forall|k: int| 0 <= k < ships@.len() ==> #[trigger] f.ship_at(k) == ships@[k]),
            r is Err ==> r == Err::<Field<S>, FieldError>(FieldError::Full),
            ships@.len() == 0 ==> r is Ok,
            ships@.len() == 1 && ships@[0].length() <= size ==> r is Ok,
            (forall|k: int|
                0 <= k < ships@.len() ==> #[trigger] len_sum(ships@, k) < (size as int) * ((
                size as int) / (ships@[k].length() as int))) ==> r is Ok,
    {
        let mut matrix: Vec<Vec<Cell>> = Vec::new();
        let mut x: usize = 0;
        while x < size
            invariant
                0 <= x <= size,
                matrix@.len() == x,
                forall|i: int|
                    0 <= i < x ==> (#[trigger] matrix@[i])@ == Seq::new(
                        size as nat,
                        |j: int| Cell::Empty,
                    ),
            decreases size - x,
        {
            let mut row: Vec<Cell> = Vec::new();
            let mut y: usize = 0;
            while y < size
                invariant
                    0 <= y <= size,
                    row@ == Seq::new(y as nat, |j: int| Cell::Empty),
                decreases size - y,
            {
                row.push(Cell::Empty);
                proof {
                    assert(row@ =~= Seq::new(y as nat + 1, |j: int| Cell::Empty));
                }
                y = y + 1;
            }
            matrix.push(row);
            x = x + 1;
        }

        let mut field = Field::<S> {
            matrix,
            ships: Vec::new(),
            size,
            _seed: core::marker::PhantomData,
        };
        assert(field.wf());
        proof {
            assert forall|i2: int, t: int|
                0 <= i2 < field.cells().len() && 0 <= t < field.cells()[i2]@.len() implies (
            #[trigger] field.cells()[i2]@[t]) == Cell::Empty by {
                assert(field.cells()[i2]@ == Seq::new(size as nat, |j: int| Cell::Empty));
            }
            lemma_occ_upto_all_empty(field.cells(), size as int);
            assert(occ_total(field.cells()) == 0);
        }

        let mut i: usize = 0;
        while i < ships.len()
            invariant
                0 <= i <= ships@.len(),
                1 <= size,
                field.wf(),
                field.side() == size,
                field.ship_count() == i,
                forall|k: int| 0 <= k < i ==> #[trigger] field.ship_at(k) == ships@[k],
                forall|k: int| 0 <= k < ships@.len() ==> (#[trigger] ships@[k]).wf(),
                forall|k: int, i2: int|
                    0 <= k < ships@.len() ==> !(#[trigger] ships@[k].seg_damaged(i2)),
                i == 0 ==> forall|x2: int, y2: int|
                    0 <= x2 < size && 0 <= y2 < size ==> #[trigger] field.cell(x2, y2)
                        == Cell::Empty,
                occ_total(field.cells()) == len_sum(ships@, i as int),
            decreases ships@.len() - i,
        {
            let ship = ships[i];
            match field.put_ship(ship) {
                Ok(()) => {
                    proof {
                        assert(len_sum(ships@, i + 1) == len_sum(ships@, i as int)
                            + ships@[i as int].length());
                    }
                },
                Err(_) => {
                    proof {
                        if i == 0 && ships@.len() >= 1 && ships@[0].length() <= size {
                            let l = ship.length() as int;
                            assert(1 <= l <= size);
                            assert forall|j: int| 0 <= j < 0 + l implies field.cells()[0]@[j]
                                == Cell::Empty by {
                                assert(field.cell(0, j) == Cell::Empty);
                            }
                            assert(row_clear(field.cells(), 0, 0, l));
                            assert(has_fit(field.cells(), l));
                            assert(false);
                        }
                        if forall|k: int|
                            0 <= k < ships@.len() ==> #[trigger] len_sum(ships@, k) < (
                            size as int) * ((size as int) / (ships@[k].length() as int)) {
                            // the fleet so far is too light to block every
                            // row, so a fit had to exist
                            let li = ships@[i as int].length() as int;
                            assert(len_sum(ships@, i as int) < (size as int) * ((size as int)
                                / li));
                            lemma_light_grid_has_fit(field.cells(), li);
                            assert(false);
                        }
                    }
                    return Err(FieldError::Full);
                },
            }
            i = i + 1;
        }

        Ok(field)
    }
}

} // verus!
