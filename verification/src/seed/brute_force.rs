//! The reference placement strategy: pick candidate lines in random order and
//! place the ship at a random offset inside the longest empty run of the
//! first line that fits.

use rand::seq::SliceRandom;
use rand::Rng;
use vstd::prelude::*;

use crate::field::col_clear;
use crate::field::col_seq;
use crate::field::fit_pair_ok;
use crate::field::has_fit;
use crate::field::is_square;
use crate::field::row_clear;
use crate::field::row_seq;
use crate::field::Cell;
use crate::seed::Seed;
use crate::ship::Ship;

verus! {

/// Strategy that exhausts every row and every column in random order.
pub struct BruteForce;

/// `len` cells of `line` starting at `s` all equal `c`.
pub open spec fn stretch(line: Seq<Cell>, c: Cell, s: int, l: int) -> bool {
    &&& 0 <= s
    &&& s + l <= line.len()
    &&& forall|i: int| s <= i < s + l ==> line[i] == c
}

/// `(s, l)` is the first-found longest run of `c` in `line`: a nonempty
/// stretch no shorter than any other, before whose start no equally long
/// stretch begins. These clauses pin `(s, l)` uniquely.
pub open spec fn longest_run(line: Seq<Cell>, c: Cell, s: int, l: int) -> bool {
    &&& 1 <= l
    &&& stretch(line, c, s, l)
    &&& forall|s2: int, l2: int| 1 <= l2 && #[trigger] stretch(line, c, s2, l2) ==> l2 <= l
    &&& forall|s2: int| 0 <= s2 < s ==> !stretch(line, c, s2, l)
}

/// The half-open span `[start, start + len)` lies inside the first-found
/// longest empty run of `line`, shifted from the run's start by at most the
/// run's leftover -- so a tight fit sits exactly at the run's start.
pub open spec fn run_placement_ok(line: Seq<Cell>, start: int, len: int) -> bool {
    exists|s0: int, l0: int|
        {
            &&& #[trigger] longest_run(line, Cell::Empty, s0, l0)
            &&& len <= l0
            &&& s0 <= start
            &&& start + len <= s0 + l0
            &&& (l0 == len ==> start == s0)
        }
}

/// What the reference strategy promises of a returned pair, beyond the
/// capability contract: `tail` is `head` shifted by exactly the ship's
/// length along the one varying axis -- so which end is the head is fixed --
/// and the span sits inside the first-found longest empty run of its line,
/// at a random offset within the leftover.
pub open spec fn fit_pair_placed(
    m: Seq<Vec<Cell>>,
    hd: (usize, usize),
    tl: (usize, usize),
    len: int,
) -> bool {
    if hd.0 == tl.0 {
        &&& (hd.0 as int) < m.len()
        &&& tl.1 == hd.1 + len
        &&& tl.1 <= m.len()
        &&& run_placement_ok(row_seq(m, hd.0 as int), hd.1 as int, len)
    } else {
        &&& hd.1 == tl.1
        &&& (hd.1 as int) < m.len()
        &&& tl.0 == hd.0 + len
        &&& tl.0 <= m.len()
        &&& run_placement_ok(col_seq(m, hd.1 as int), hd.0 as int, len)
    }
}

impl BruteForce {
    /// Longest contiguous run of cells equal to `c`: scan left to right; a
    /// strictly longer run replaces the best found so far, so on ties the
    /// first maximum wins. Returns the run's start and length, or `None` when
    /// no cell equals `c`.
    pub fn get_longest_subline(line: &Vec<Cell>, c: Cell) -> (r: Option<(usize, usize)>)
        ensures
            r is None <==> (forall|i: int| 0 <= i < line@.len() ==> line@[i] != c),
            (r matches Some(p) ==> longest_run(line@, c, p.0 as int, p.1 as int)),
    {
        let ghost l = line@;
        let n = line.len();
        let mut res: Option<(usize, usize)> = None;
        let mut start: Option<usize> = None;
        let mut len: usize = 0;
        let mut id: usize = 0;

        while id < n
            invariant
                n == l.len(),
                l == line@,
                0 <= id <= n,
                len <= id,
                len == 0 ==> start is None && (id == 0 || l[id - 1] != c),
                len >= 1 ==> start == Some((id - len) as usize) && stretch(l, c, id - len, len as int)
                    && (id - len == 0 || l[id - len - 1] != c),
                res is None <==> (forall|i: int| 0 <= i < id ==> l[i] != c),
                (res matches Some(p) ==> 1 <= p.1 && p.0 + p.1 <= id && stretch(
                    l,
                    c,
                    p.0 as int,
                    p.1 as int,
                ) && (p.0 == 0 || l[p.0 - 1] != c) && len <= p.1),
                (res matches Some(p) ==> forall|s2: int, l2: int|
                    1 <= l2 && #[trigger] stretch(l, c, s2, l2) && s2 + l2 <= id ==> l2 <= p.1),
                (res matches Some(p) ==> forall|s2: int|
                    0 <= s2 < p.0 ==> !(stretch(l, c, s2, p.1 as int) && s2 + p.1 <= id)),
            decreases n - id,
        {
            let v = line[id];
            if c == v {
                len = len + 1;
                let start_id = match start {
                    Some(s) => s,
                    None => {
                        start = Some(id);
                        id
                    },
                };
                assert(start_id == id + 1 - len);
                assert(stretch(l, c, id + 1 - len, len as int));

                match res {
                    None => {
                        assert(len == 1);
                        res = Some((start_id, len));
                        proof {
                            assert forall|s2: int, l2: int|
                                1 <= l2 && #[trigger] stretch(l, c, s2, l2) && s2 + l2 <= id + 1
                                implies l2 <= 1 by {
                                assert(l[s2] == c);
                            }
                            assert forall|s2: int| 0 <= s2 < id implies !(stretch(l, c, s2, 1)
                                && s2 + 1 <= id + 1) by {
                                if stretch(l, c, s2, 1) {
                                    assert(l[s2] == c);
                                }
                            }
                        }
                    },
                    Some((res_id, res_len)) => {
                        if res_len < len {
                            proof {
                                assert forall|s2: int, l2: int|
                                    1 <= l2 && #[trigger] stretch(l, c, s2, l2) && s2 + l2 <= id
                                        + 1 implies l2 <= len by {
                                    if s2 + l2 <= id {
                                        assert(l2 <= res_len);
                                    } else {
                                        // the stretch ends at id + 1, so it lies
                                        // inside the current left-maximal run
                                        assert(id + 1 - len <= s2) by {
                                            if s2 < id + 1 - len {
                                                assert(l[id - len] == c);
                                            }
                                        }
                                    }
                                }
                                assert forall|s2: int| 0 <= s2 < id + 1 - len implies !(stretch(
                                    l,
                                    c,
                                    s2,
                                    len as int,
                                ) && s2 + len <= id + 1) by {
                                    if stretch(l, c, s2, len as int) && s2 + len <= id + 1 {
                                        if s2 + len <= id {
                                            assert(len <= res_len);
                                        } else {
                                            assert(l[id - len] == c);
                                        }
                                    }
                                }
                            }
                            res = Some((start_id, len));
                        } else {
                            proof {
                                assert forall|s2: int, l2: int|
                                    1 <= l2 && #[trigger] stretch(l, c, s2, l2) && s2 + l2 <= id
                                        + 1 implies l2 <= res_len by {
                                    if s2 + l2 > id {
                                        // ends at id + 1: contained in the
                                        // current run, which is no longer than
                                        // the best
                                        assert(id + 1 - len <= s2) by {
                                            if s2 < id + 1 - len {
                                                assert(l[id - len] == c);
                                            }
                                        }
                                    }
                                }
                                assert forall|s2: int| 0 <= s2 < res_id implies !(stretch(
                                    l,
                                    c,
                                    s2,
                                    res_len as int,
                                ) && s2 + res_len <= id + 1) by {
                                    if stretch(l, c, s2, res_len as int) && s2 + res_len == id
                                        + 1 {
                                        // such a stretch lies inside the current
                                        // run, which would have to start before
                                        // the recorded best and reach its length
                                        assert(id + 1 - len <= s2) by {
                                            if s2 < id + 1 - len {
                                                assert(l[id - len] == c);
                                            }
                                        }
                                        assert(len >= res_len);
                                        assert(len == res_len && s2 == id + 1 - len);
                                        assert(l[res_id - 1] != c);
                                        assert(res_id + res_len <= id);
                                        assert(s2 <= res_id - 1 < s2 + res_len);
                                        assert(l[res_id - 1] == c);
                                    }
                                }
                            }
                        }
                    },
                }
            } else {
                len = 0;
                start = None;
                proof {
                    match res {
                        Some(p) => {
                            assert forall|s2: int| 0 <= s2 < p.0 implies !(stretch(
                                l,
                                c,
                                s2,
                                p.1 as int,
                            ) && s2 + p.1 <= id + 1) by {
                                if stretch(l, c, s2, p.1 as int) && s2 + p.1 == id + 1 {
                                    assert(l[id as int] == c);
                                }
                            }
                        },
                        None => {},
                    }
                }
            }

            id = id + 1;
        }

        res
    }
}

/// Relies on rand::seq::SliceRandom::shuffle: it permutes the slice's
/// elements in place, so the length and the multiset of elements are kept.
#[verifier::external_body]
fn shuffle_pairs(v: &mut Vec<(usize, usize)>)
    ensures
        final(v)@.len() == old(v)@.len(),
        final(v)@.to_multiset() == old(v)@.to_multiset(),
{
    v.shuffle(&mut rand::thread_rng());
}

/// Relies on rand::Rng::gen_range: a value drawn from the given inclusive
/// range, which must not be empty.
#[verifier::external_body]
fn pick_in_range(lo: usize, hi: usize) -> (r: usize)
    requires
        lo <= hi,
    ensures
        lo <= r <= hi,
{
    rand::thread_rng().gen_range(lo..=hi)
}

/// Candidate line `dir` (`0` a row, anything else a column) number `id` holds
/// `len` contiguous empty cells somewhere.
pub open spec fn dir_has_fit(m: Seq<Vec<Cell>>, dir: usize, id: usize, len: int) -> bool {
    if dir == 0 {
        exists|s: int| 0 <= s && s + len <= m.len() && #[trigger] row_clear(m, id as int, s, len)
    } else {
        exists|s: int| 0 <= s && s + len <= m.len() && #[trigger] col_clear(m, id as int, s, len)
    }
}

/// Copy candidate line `(dir, id)` out of the matrix: row `id` read directly,
/// column `id` read by striding the rows.
#[verifier::loop_isolation(false)]
fn extract_line(matrix: &Vec<Vec<Cell>>, dir: usize, id: usize) -> (line: Vec<Cell>)
    requires
        is_square(matrix@),
        id < matrix@.len(),
    ensures
        line@.len() == matrix@.len(),
        forall|j: int|
            0 <= j < matrix@.len() ==> #[trigger] line@[j] == (if dir == 0 {
                matrix@[id as int]@[j]
            } else {
                matrix@[j]@[id as int]
            }),
{
    let n = matrix.len();
    let mut line: Vec<Cell> = Vec::new();
    let mut j: usize = 0;
    while j < n
        invariant
            0 <= j <= n,
            line@.len() == j,
            forall|t: int|
                0 <= t < j ==> #[trigger] line@[t] == (if dir == 0 {
                    matrix@[id as int]@[t]
                } else {
                    matrix@[t]@[id as int]
                }),
        decreases n - j,
    {
        if dir == 0 {
            line.push(matrix[id][j]);
        } else {
            line.push(matrix[j][id]);
        }
        j = j + 1;
    }
    line
}

impl BruteForce {
    /// The reference algorithm with its full contract: candidate lines are
    /// tried until one fits, so `None` comes only when no line can hold the
    /// ship; a returned pair runs head-to-tail by exactly the ship's length
    /// along one axis, placed inside the first-found longest empty run of its
    /// line at some offset within the run's leftover.
    #[verifier::loop_isolation(false)]
    pub fn fit_line(ship: &Ship, matrix: &Vec<Vec<Cell>>) -> (r: Option<
        ((usize, usize), (usize, usize)),
    >)
        requires
            ship.wf(),
            is_square(matrix@),
        ensures
            r is None ==> !has_fit(matrix@, ship.length() as int),
            (r matches Some(pair) ==> fit_pair_ok(matrix@, pair.0, pair.1, ship.length() as int)),
            (r matches Some(pair) ==> fit_pair_placed(
                matrix@,
                pair.0,
                pair.1,
                ship.length() as int,
            )),
    {
        let ghost m = matrix@;
        let ghost l = ship.length() as int;
        let n = matrix.len();

        let mut dirs: Vec<(usize, usize)> = Vec::new();
        let mut i: usize = 0;
        while i < n
            invariant
                0 <= i <= n,
                forall|t: int|
                    0 <= t < dirs@.len() ==> (#[trigger] dirs@[t]).0 <= 1 && dirs@[t].1 < n,
                forall|d: usize, id: usize| d <= 1 && id < i ==> dirs@.contains((d, id)),
            decreases n - i,
        {
            let ghost snap = dirs@;
            dirs.push((0, i));
            dirs.push((1, i));
            proof {
                assert(dirs@ == snap.push((0usize, i)).push((1usize, i)));
                assert forall|d: usize, id: usize| d <= 1 && id < i + 1 implies dirs@.contains(
                    (d, id),
                ) by {
                    if id < i {
                        assert(snap.contains((d, id)));
                        let t = choose|t: int| 0 <= t < snap.len() && snap[t] == (d, id);
                        assert(dirs@[t] == (d, id));
                    } else if d == 0 {
                        assert(dirs@[snap.len() as int] == (d, id));
                    } else {
                        assert(dirs@[snap.len() as int + 1] == (d, id));
                    }
                }
            }
            i = i + 1;
        }

        let ghost built = dirs@;
        shuffle_pairs(&mut dirs);
        proof {
            built.to_multiset_ensures();
            dirs@.to_multiset_ensures();
            assert forall|d: usize, id: usize| d <= 1 && id < n implies dirs@.contains(
                (d, id),
            ) by {
                assert(built.contains((d, id)));
                assert(built.to_multiset().count((d, id)) > 0);
            }
            assert forall|t: int| 0 <= t < dirs@.len() implies (#[trigger] dirs@[t]).0 <= 1
                && dirs@[t].1 < n by {
                assert(dirs@.contains(dirs@[t]));
                assert(dirs@.to_multiset().count(dirs@[t]) > 0);
                assert(built.contains(dirs@[t]));
                let t2 = choose|t2: int| 0 <= t2 < built.len() && built[t2] == dirs@[t];
                assert(built[t2].0 <= 1 && built[t2].1 < n);
            }
        }

        while dirs.len() > 0
            invariant
                forall|t: int|
                    0 <= t < dirs@.len() ==> (#[trigger] dirs@[t]).0 <= 1 && dirs@[t].1 < n,
                forall|d: usize, id: usize|
                    d <= 1 && id < n && #[trigger] dir_has_fit(m, d, id, l) ==> dirs@.contains(
                        (d, id),
                    ),
            decreases dirs@.len(),
        {
            let ghost before_pop = dirs@;
            let (dir, id) = match dirs.pop() {
                Some(p) => p,
                None => {
                    proof {
                        assert(false);
                    }
                    return None;
                },
            };
            proof {
                assert(before_pop[before_pop.len() - 1] == (dir, id));
                assert(dir <= 1 && id < n);
            }

            let line = extract_line(matrix, dir, id);

            let ghost popped_fits = dir_has_fit(m, dir, id, l);
            proof {
                // any fitting pair other than the popped one is still present
                assert forall|d: usize, id2: usize|
                    d <= 1 && id2 < n && #[trigger] dir_has_fit(m, d, id2, l) && (d, id2) != (
                    dir,
                    id,
                ) implies dirs@.contains((d, id2)) by {
                    let t = choose|t: int|
                        0 <= t < before_pop.len() && before_pop[t] == (d, id2);
                    assert(t < before_pop.len() - 1);
                    assert(dirs@[t] == (d, id2));
                }
            }

            let (run_start, run_len) = match BruteForce::get_longest_subline(&line, Cell::Empty) {
                Some(run) => run,
                None => {
                    proof {
                        lemma_no_run_no_fit(m, line@, dir, id, l);
                    }
                    continue ;
                },
            };

            let occupied = match ship.get_fit_len(run_len) {
                Some(o) => o,
                None => {
                    proof {
                        lemma_short_run_no_fit(m, line@, dir, id, l, run_len as int);
                    }
                    continue ;
                },
            };

            let delta = run_len - occupied;
            let place = if delta > 0 {
                pick_in_range(run_start, run_start + delta)
            } else {
                run_start
            };

            proof {
                assert(stretch(line@, Cell::Empty, run_start as int, run_len as int));
                assert(occupied == l);
                assert(place + l <= run_start + run_len <= n);
                assert forall|j: int| place <= j < place + occupied implies line@[j]
                    == Cell::Empty by {
                    assert(run_start <= j < run_start + run_len);
                }
            }

            if dir == 0 {
                let hd = (id, place);
                let tl = (id, place + occupied);
                proof {
                    assert(row_clear(m, id as int, place as int, l)) by {
                        assert forall|j: int| place <= j < place + l implies m[id as int]@[j]
                            == Cell::Empty by {
                            assert(line@[j] == Cell::Empty);
                        }
                    }
                    assert(fit_pair_ok(m, hd, tl, l));
                    assert(line@ =~= row_seq(m, id as int));
                    assert(longest_run(
                        row_seq(m, id as int),
                        Cell::Empty,
                        run_start as int,
                        run_len as int,
                    ));
                    assert(run_placement_ok(row_seq(m, id as int), place as int, l));
                    assert(fit_pair_placed(m, hd, tl, l));
                }
                return Some((hd, tl));
            } else {
                let hd = (place, id);
                let tl = (place + occupied, id);
                proof {
                    assert(col_clear(m, id as int, place as int, l)) by {
                        assert forall|j: int| place <= j < place + l implies m[j]@[id as int]
                            == Cell::Empty by {
                            assert(line@[j] == Cell::Empty);
                        }
                    }
                    assert(fit_pair_ok(m, hd, tl, l));
                    assert(line@ =~= col_seq(m, id as int));
                    assert(longest_run(
                        col_seq(m, id as int),
                        Cell::Empty,
                        run_start as int,
                        run_len as int,
                    ));
                    assert(run_placement_ok(col_seq(m, id as int), place as int, l));
                    assert(hd.0 != tl.0);
                    assert(fit_pair_placed(m, hd, tl, l));
                }
                return Some((hd, tl));
            }
        }

        proof {
            if has_fit(m, l) {
                if exists|x: int, s: int|
                    0 <= x < m.len() && 0 <= s && s + l <= m.len() && #[trigger] row_clear(
                        m,
                        x,
                        s,
                        l,
                    ) {
                    let (x, s) = choose|x: int, s: int|
                        0 <= x < m.len() && 0 <= s && s + l <= m.len() && #[trigger] row_clear(
                            m,
                            x,
                            s,
                            l,
                        );
                    assert(dir_has_fit(m, 0, x as usize, l));
                    assert(dirs@.contains((0usize, x as usize)));
                } else {
                    let (y, s) = choose|y: int, s: int|
                        0 <= y < m.len() && 0 <= s && s + l <= m.len() && #[trigger] col_clear(
                            m,
                            y,
                            s,
                            l,
                        );
                    assert(dir_has_fit(m, 1, y as usize, l));
                    assert(dirs@.contains((1usize, y as usize)));
                }
                assert(false);
            }
        }
        None
    }
}

impl Seed for BruteForce {
    fn get_fit_line(ship: &Ship, matrix: &Vec<Vec<Cell>>) -> (r: Option<
        ((usize, usize), (usize, usize)),
    >) {
        BruteForce::fit_line(ship, matrix)
    }
}

/// A line with no empty cell at all holds no empty run of the ship's length.
proof fn lemma_no_run_no_fit(m: Seq<Vec<Cell>>, line: Seq<Cell>, dir: usize, id: usize, l: int)
    requires
        1 <= l,
        id < m.len(),
        line.len() == m.len(),
        forall|j: int|
            0 <= j < m.len() ==> #[trigger] line[j] == (if dir == 0 {
                m[id as int]@[j]
            } else {
                m[j]@[id as int]
            }),
        forall|i: int| 0 <= i < line.len() ==> line[i] != Cell::Empty,
    ensures
        !dir_has_fit(m, dir, id, l),
{
    if dir_has_fit(m, dir, id, l) {
        if dir == 0 {
            let s = choose|s: int|
                0 <= s && s + l <= m.len() && #[trigger] row_clear(m, id as int, s, l);
            assert(m[id as int]@[s] == Cell::Empty);
            assert(line[s] == Cell::Empty);
        } else {
            let s = choose|s: int|
                0 <= s && s + l <= m.len() && #[trigger] col_clear(m, id as int, s, l);
            assert(m[s]@[id as int] == Cell::Empty);
            assert(line[s] == Cell::Empty);
        }
    }
}

/// If the longest empty run of a line is shorter than the ship, the line
/// holds no empty run of the ship's length.
proof fn lemma_short_run_no_fit(
    m: Seq<Vec<Cell>>,
    line: Seq<Cell>,
    dir: usize,
    id: usize,
    l: int,
    best: int,
)
    requires
        1 <= l,
        best < l,
        id < m.len(),
        line.len() == m.len(),
        forall|j: int|
            0 <= j < m.len() ==> #[trigger] line[j] == (if dir == 0 {
                m[id as int]@[j]
            } else {
                m[j]@[id as int]
            }),
        forall|s2: int, l2: int|
            1 <= l2 && #[trigger] stretch(line, Cell::Empty, s2, l2) ==> l2 <= best,
    ensures
        !dir_has_fit(m, dir, id, l),
{
    if dir_has_fit(m, dir, id, l) {
        if dir == 0 {
            let s = choose|s: int|
                0 <= s && s + l <= m.len() && #[trigger] row_clear(m, id as int, s, l);
            assert forall|i: int| s <= i < s + l implies line[i] == Cell::Empty by {
                assert(m[id as int]@[i] == Cell::Empty);
            }
            assert(stretch(line, Cell::Empty, s, l));
        } else {
            let s = choose|s: int|
                0 <= s && s + l <= m.len() && #[trigger] col_clear(m, id as int, s, l);
            assert forall|i: int| s <= i < s + l implies line[i] == Cell::Empty by {
                assert(m[i]@[id as int] == Cell::Empty);
            }
            assert(stretch(line, Cell::Empty, s, l));
        }
    }
}

} // verus!
