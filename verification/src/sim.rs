use vstd::prelude::*;

verus! {

use crate::arrival::{ArrivalProcess, FP_ONE};
use crate::grid::BitGrid;
use crate::rng::{rng_below, rng_from_seed};

/// One actively burning cell: its coordinates and its age in steps since
/// ignition. A cell's occupancy bit is cleared at the moment it catches
/// fire, so a burning cell is never simultaneously a live tree.
#[derive(Clone, Copy, PartialEq, Eq, Structural, Debug)]
pub struct BurningCell {
    pub x: usize,
    pub y: usize,
    pub age: u64,
}

/// The per-step parameter snapshot read once at the start of a step.
#[derive(Clone, Copy, PartialEq, Eq, Structural, Debug)]
pub struct SimParams {
    /// A burning cell is carried into the next step while its age is below
    /// this bound and extinguished once its age reaches it.
    pub max_fire_age: u64,
    /// Whether contagion examines all eight neighbours or only the four
    /// orthogonal ones.
    pub eight_connected: bool,
}

/// How many neighbours contagion examines per burning cell.
pub open spec fn neighbor_count(eight: bool) -> int {
    if eight {
        8
    } else {
        4
    }
}

/// Offset of the k-th neighbour; the first four are the orthogonal ones, so
/// a 4-connected scan is a prefix of the 8-connected one.
pub open spec fn neighbor_delta(k: int) -> (int, int) {
    if k == 0 {
        (-1, 0)
    } else if k == 1 {
        (1, 0)
    } else if k == 2 {
        (0, -1)
    } else if k == 3 {
        (0, 1)
    } else if k == 4 {
        (-1, -1)
    } else if k == 5 {
        (-1, 1)
    } else if k == 6 {
        (1, -1)
    } else {
        (1, 1)
    }
}

/// The k-th neighbour of (x, y) if it lies inside a w x h grid.
pub open spec fn spec_neighbor(w: int, h: int, x: int, y: int, k: int) -> Option<(int, int)> {
    if 0 <= x + neighbor_delta(k).0 < w && 0 <= y + neighbor_delta(k).1 < h {
        Some((x + neighbor_delta(k).0, y + neighbor_delta(k).1))
    } else {
        None
    }
}

/// The coordinates of a burning cell, as a pair of integers.
pub open spec fn coords(c: BurningCell) -> (int, int) {
    (c.x as int, c.y as int)
}

/// Contagion around one burning cell, examining neighbours k and onward:
/// each in-bounds neighbour that is occupied in the pre-step grid `g` and
/// not already ignited this step (the `burnt` set) ignites at age 0 and is
/// added to `burnt`. Returns the ignited cells in scan order and the grown
/// `burnt` set.
pub open spec fn ignite_rec(
    g: BitGrid,
    x: int,
    y: int,
    k: int,
    eight: bool,
    burnt: Set<(int, int)>,
) -> (Seq<BurningCell>, Set<(int, int)>)
    decreases neighbor_count(eight) - k,
{
    if k < 0 || k >= neighbor_count(eight) {
        (Seq::empty(), burnt)
    } else {
        match spec_neighbor(g.spec_width(), g.spec_height(), x, y, k) {
            Some(c) => {
                if g.occupied(c.0, c.1) && !burnt.contains(c) {
                    (
                        seq![
                            BurningCell { x: c.0 as usize, y: c.1 as usize, age: 0 },
                        ] + ignite_rec(g, x, y, k + 1, eight, burnt.insert(c)).0,
                        ignite_rec(g, x, y, k + 1, eight, burnt.insert(c)).1,
                    )
                } else {
                    ignite_rec(g, x, y, k + 1, eight, burnt)
                }
            },
            None => ignite_rec(g, x, y, k + 1, eight, burnt),
        }
    }
}

/// One step of the burning-cell lifecycle over the listed fires, against the
/// pre-step grid `g`: each fire younger than the age bound is carried with
/// age + 1, each fire then spreads by contagion to its occupied neighbours,
/// first writer winning via the `burnt` set. Returns the next burning list
/// (carried and ignited cells, in order) and the full set of cells ignited.
pub open spec fn propagate_rec(
    g: BitGrid,
    fires: Seq<BurningCell>,
    p: SimParams,
    burnt: Set<(int, int)>,
) -> (Seq<BurningCell>, Set<(int, int)>)
    decreases fires.len(),
{
    if fires.len() == 0 {
        (Seq::empty(), burnt)
    } else {
        let f = fires[0];
        let carried: Seq<BurningCell> = if f.age < p.max_fire_age {
            seq![BurningCell { x: f.x, y: f.y, age: (f.age + 1) as u64 }]
        } else {
            Seq::empty()
        };
        (
            carried + ignite_rec(g, f.x as int, f.y as int, 0, p.eight_connected, burnt).0
                + propagate_rec(
                g,
                fires.drop_first(),
                p,
                ignite_rec(g, f.x as int, f.y as int, 0, p.eight_connected, burnt).1,
            ).0,
            propagate_rec(
                g,
                fires.drop_first(),
                p,
                ignite_rec(g, f.x as int, f.y as int, 0, p.eight_connected, burnt).1,
            ).1,
        )
    }
}

/// The age-0 entries of `s` are freshly ignited cells: each is recorded in
/// `post` but was not in `pre`, `post` only grows from `pre`, and no two
/// age-0 entries share a coordinate.
pub open spec fn fresh_ignitions(
    s: Seq<BurningCell>,
    pre: Set<(int, int)>,
    post: Set<(int, int)>,
) -> bool {
    &&& pre.subset_of(post)
    &&& forall|t: int|
        0 <= t < s.len() && (#[trigger] s[t]).age == 0 ==> post.contains(coords(s[t]))
            && !pre.contains(coords(s[t]))
    &&& forall|t1: int, t2: int|
        0 <= t1 < t2 < s.len() && (#[trigger] s[t1]).age == 0 && (#[trigger] s[t2]).age == 0
            ==> coords(s[t1]) != coords(s[t2])
}

/// The cells a neighbour scan ignites are fresh: pairwise distinct and new
/// to the ignited set, because each ignition inserts its coordinate and a
/// later ignition requires the coordinate to be absent.
proof fn lemma_ignite_rec_fresh(
    g: BitGrid,
    x: int,
    y: int,
    k: int,
    eight: bool,
    burnt: Set<(int, int)>,
)
    ensures
        fresh_ignitions(
            ignite_rec(g, x, y, k, eight, burnt).0,
            burnt,
            ignite_rec(g, x, y, k, eight, burnt).1,
        ),
    decreases neighbor_count(eight) - k,
{
    if k < 0 || k >= neighbor_count(eight) {
    } else {
        match spec_neighbor(g.spec_width(), g.spec_height(), x, y, k) {
            Some(c) => {
                if g.occupied(c.0, c.1) && !burnt.contains(c) {
                    lemma_ignite_rec_fresh(g, x, y, k + 1, eight, burnt.insert(c));
                    let cell = BurningCell { x: c.0 as usize, y: c.1 as usize, age: 0 };
                    let rest = ignite_rec(g, x, y, k + 1, eight, burnt.insert(c));
                    let s = ignite_rec(g, x, y, k, eight, burnt).0;
                    g.lemma_dims_fit();
                    assert(0 <= c.0 < g.spec_width() && 0 <= c.1 < g.spec_height());
                    assert(coords(cell) == c);
                    assert(s == seq![cell] + rest.0);
                    assert(s[0] == cell);
                    assert(forall|t: int| 1 <= t < s.len() ==> s[t] == rest.0[t - 1]);
                } else {
                    lemma_ignite_rec_fresh(g, x, y, k + 1, eight, burnt);
                }
            },
            None => {
                lemma_ignite_rec_fresh(g, x, y, k + 1, eight, burnt);
            },
        }
    }
}

/// The propagated burning list's age-0 entries (the cells contagion
/// ignited) are fresh with respect to the initial ignited set.
proof fn lemma_propagate_rec_fresh(
    g: BitGrid,
    fires: Seq<BurningCell>,
    p: SimParams,
    burnt: Set<(int, int)>,
)
    ensures
        fresh_ignitions(
            propagate_rec(g, fires, p, burnt).0,
            burnt,
            propagate_rec(g, fires, p, burnt).1,
        ),
    decreases fires.len(),
{
    if fires.len() == 0 {
    } else {
        let f = fires[0];
        let fx = f.x as int;
        let fy = f.y as int;
        let carried: Seq<BurningCell> = if f.age < p.max_fire_age {
            seq![BurningCell { x: f.x, y: f.y, age: (f.age + 1) as u64 }]
        } else {
            Seq::empty()
        };
        let ign = ignite_rec(g, fx, fy, 0, p.eight_connected, burnt);
        let rest = propagate_rec(g, fires.drop_first(), p, ign.1);
        lemma_ignite_rec_fresh(g, fx, fy, 0, p.eight_connected, burnt);
        lemma_propagate_rec_fresh(g, fires.drop_first(), p, ign.1);
        let s = propagate_rec(g, fires, p, burnt).0;
        assert(s == carried + ign.0 + rest.0);
        let nc = carried.len() as int;
        let ni = ign.0.len() as int;
        assert(forall|t: int| 0 <= t < nc ==> (#[trigger] s[t]).age != 0);
        assert(forall|t: int| nc <= t < nc + ni ==> s[t] == ign.0[t - nc]);
        assert(forall|t: int| nc + ni <= t < s.len() ==> s[t] == rest.0[t - nc - ni]);
        assert forall|t: int|
            0 <= t < s.len() && (#[trigger] s[t]).age == 0 implies propagate_rec(
            g,
            fires,
            p,
            burnt,
        ).1.contains(coords(s[t])) && !burnt.contains(coords(s[t])) by {
            if t < nc {
            } else if t < nc + ni {
                assert(ign.1.contains(coords(ign.0[t - nc])));
                assert(ign.1.subset_of(rest.1));
            } else {
                assert(rest.1.contains(coords(rest.0[t - nc - ni])));
                assert(!ign.1.contains(coords(rest.0[t - nc - ni])));
                assert(burnt.subset_of(ign.1));
            }
        }
        assert forall|t1: int, t2: int|
            0 <= t1 < t2 < s.len() && (#[trigger] s[t1]).age == 0 && (#[trigger] s[t2]).age == 0
            implies coords(s[t1]) != coords(s[t2]) by {
            if t1 < nc || t2 < nc {
            } else if t2 < nc + ni {
                assert(coords(ign.0[t1 - nc]) != coords(ign.0[t2 - nc]));
            } else if t1 < nc + ni {
                assert(ign.1.contains(coords(ign.0[t1 - nc])));
                assert(!ign.1.contains(coords(rest.0[t2 - nc - ni])));
            } else {
                assert(coords(rest.0[t1 - nc - ni]) != coords(rest.0[t2 - nc - ni]));
            }
        }
    }
}

/// In any single step, contagion ignites a given coordinate at most once:
/// among the age-0 entries of the propagated burning list no coordinate
/// repeats, and each is recorded in the step's ignited set. First writer
/// wins — igniting a cell clears the occupancy bit that a later burning
/// neighbour's check would need, so the scan order cannot matter.
pub proof fn lemma_contagion_no_duplicates(s: FireSimulation, p: SimParams)
    ensures
        fresh_ignitions(s.next_propagated(p), Set::empty(), s.next_burnt(p)),
{
    lemma_propagate_rec_fresh(s.spec_grid(), s.spec_fires(), p, Set::empty());
}

/// The block index of a burning cell's coordinates in `g`'s packing.
pub open spec fn block_key(g: BitGrid, c: BurningCell) -> int {
    g.spec_block_index(c.x as int, c.y as int)
}

/// The burning list is ordered by ascending block index in `g`'s packing.
pub open spec fn sorted_by_block(g: BitGrid, s: Seq<BurningCell>) -> bool {
    forall|t1: int, t2: int|
        0 <= t1 <= t2 < s.len() ==> block_key(g, #[trigger] s[t1]) <= block_key(
            g,
            #[trigger] s[t2],
        )
}

/// Every listed cell lies inside a w x h grid.
pub open spec fn fires_in_bounds(s: Seq<BurningCell>, w: int, h: int) -> bool {
    forall|i: int| 0 <= i < s.len() ==> (#[trigger] s[i]).x < w && s[i].y < h
}

/// Whether (a, b) is one of the listed manual ignition coordinates.
pub open spec fn manual_contains(ms: Seq<(usize, usize)>, a: int, b: int) -> bool {
    exists|t: int| 0 <= t < ms.len() && (#[trigger] ms[t]).0 == a && ms[t].1 == b
}

/// The in-bounds neighbour k of (x, y), if there is one.
fn neighbor(w: usize, h: usize, x: usize, y: usize, k: usize) -> (r: Option<(usize, usize)>)
    requires
        x < w <= 0xffff,
        y < h <= 0xffff,
        k < 8,
    ensures
        r is Some <==> spec_neighbor(w as int, h as int, x as int, y as int, k as int) is Some,
        r matches Some(c) ==> spec_neighbor(w as int, h as int, x as int, y as int, k as int)
            == Some((c.0 as int, c.1 as int)),
{
    if k == 0 {
        if x > 0 {
            Some((x - 1, y))
        } else {
            None
        }
    } else if k == 1 {
        if x + 1 < w {
            Some((x + 1, y))
        } else {
            None
        }
    } else if k == 2 {
        if y > 0 {
            Some((x, y - 1))
        } else {
            None
        }
    } else if k == 3 {
        if y + 1 < h {
            Some((x, y + 1))
        } else {
            None
        }
    } else if k == 4 {
        if x > 0 && y > 0 {
            Some((x - 1, y - 1))
        } else {
            None
        }
    } else if k == 5 {
        if x > 0 && y + 1 < h {
            Some((x - 1, y + 1))
        } else {
            None
        }
    } else if k == 6 {
        if x + 1 < w && y > 0 {
            Some((x + 1, y - 1))
        } else {
            None
        }
    } else {
        if x + 1 < w && y + 1 < h {
            Some((x + 1, y + 1))
        } else {
            None
        }
    }
}

/// Ages and spreads the current fires against `grid`, clearing the
/// occupancy bit of every cell ignited by contagion. The returned list and
/// the grid's new occupancy are exactly those of `propagate_rec` run on the
/// grid's pre-call state with an empty ignited set.
fn propagate(grid: &mut BitGrid, fires: &Vec<BurningCell>, p: SimParams) -> (out: Vec<
    BurningCell,
>)
    requires
        old(grid).wf(),
        fires_in_bounds(fires@, old(grid).spec_width(), old(grid).spec_height()),
    ensures
        final(grid).wf(),
        final(grid).spec_width() == old(grid).spec_width(),
        final(grid).spec_height() == old(grid).spec_height(),
        out@ == propagate_rec(*old(grid), fires@, p, Set::empty()).0,
        forall|a: int, b: int|
            0 <= a < old(grid).spec_width() && 0 <= b < old(grid).spec_height()
                ==> final(grid).occupied(a, b) == (old(grid).occupied(a, b) && !propagate_rec(
                *old(grid),
                fires@,
                p,
                Set::empty(),
            ).1.contains((a, b))),
        fires_in_bounds(out@, old(grid).spec_width(), old(grid).spec_height()),
{
    let ghost g0: BitGrid = *grid;
    proof {
        g0.lemma_dims_bounded();
    }
    let w: usize = grid.width();
    let h: usize = grid.height();
    let numngh: usize = if p.eight_connected {
        8
    } else {
        4
    };
    let mut out: Vec<BurningCell> = Vec::new();
    let ghost mut burnt: Set<(int, int)> = Set::empty();
    let mut i: usize = 0;
    proof {
        assert(fires@.skip(0) =~= fires@);
    }
    while i < fires.len()
        invariant
            i <= fires@.len(),
            numngh == neighbor_count(p.eight_connected),
            grid.wf(),
            grid.spec_width() == g0.spec_width(),
            grid.spec_height() == g0.spec_height(),
            w == g0.spec_width(),
            h == g0.spec_height(),
            0 < w <= 0xffff,
            0 < h <= 0xffff,
            g0.wf(),
            fires_in_bounds(fires@, g0.spec_width(), g0.spec_height()),
            fires_in_bounds(out@, g0.spec_width(), g0.spec_height()),
            forall|a: int, b: int|
                0 <= a < g0.spec_width() && 0 <= b < g0.spec_height()
                    ==> (#[trigger] grid.occupied(a, b)) == (g0.occupied(a, b) && !burnt.contains((a, b))),
            propagate_rec(g0, fires@, p, Set::empty()) == (
                out@ + propagate_rec(g0, fires@.skip(i as int), p, burnt).0,
                propagate_rec(g0, fires@.skip(i as int), p, burnt).1,
            ),
        decreases fires@.len() - i,
    {
        let f: BurningCell = fires[i];
        let ghost fx: int = f.x as int;
        let ghost fy: int = f.y as int;
        let ghost eight: bool = p.eight_connected;
        let ghost carried: Seq<BurningCell> = if f.age < p.max_fire_age {
            seq![BurningCell { x: f.x, y: f.y, age: (f.age + 1) as u64 }]
        } else {
            Seq::empty()
        };
        proof {
            assert(fires@.skip(i as int)[0] == fires@[i as int]);
            assert(fires@.skip(i as int).drop_first() =~= fires@.skip(i as int + 1));
        }
        let ghost out_before: Seq<BurningCell> = out@;
        if f.age < p.max_fire_age {
            out.push(BurningCell { x: f.x, y: f.y, age: f.age + 1 });
        }
        let ghost out_mid: Seq<BurningCell> = out@;
        let ghost burnt_in: Set<(int, int)> = burnt;
        proof {
            assert(out_mid =~= out_before + carried);
            assert(out@.skip(out_mid.len() as int) =~= Seq::<BurningCell>::empty());
            assert(out@.take(out_mid.len() as int) =~= out_mid);
            assert(Seq::<BurningCell>::empty() + ignite_rec(g0, fx, fy, 0, eight, burnt).0
                =~= ignite_rec(g0, fx, fy, 0, eight, burnt).0);
        }
        let mut k: usize = 0;
        while k < numngh
            invariant
                k <= numngh,
                numngh == neighbor_count(eight),
                eight == p.eight_connected,
                grid.wf(),
                grid.spec_width() == g0.spec_width(),
                grid.spec_height() == g0.spec_height(),
                w == g0.spec_width(),
                h == g0.spec_height(),
                0 < w <= 0xffff,
                0 < h <= 0xffff,
                g0.wf(),
                fx == f.x as int,
                fy == f.y as int,
                f.x < w,
                f.y < h,
                fires_in_bounds(out@, g0.spec_width(), g0.spec_height()),
                forall|a: int, b: int|
                    0 <= a < g0.spec_width() && 0 <= b < g0.spec_height()
                        ==> (#[trigger] grid.occupied(a, b)) == (g0.occupied(a, b) && !burnt.contains((a, b))),
                out_mid.len() <= out@.len(),
                out@.take(out_mid.len() as int) == out_mid,
                ignite_rec(g0, fx, fy, 0, eight, burnt_in) == (
                    out@.skip(out_mid.len() as int) + ignite_rec(g0, fx, fy, k as int, eight, burnt).0,
                    ignite_rec(g0, fx, fy, k as int, eight, burnt).1,
                ),
            decreases numngh - k,
        {
            let ghost out_pre: Seq<BurningCell> = out@;
            let ghost burnt_pre: Set<(int, int)> = burnt;
            match neighbor(w, h, f.x, f.y, k) {
                Some(c) => {
                    if grid.get(c.0, c.1) {
                        proof {
                            let a0: int = c.0 as int;
                            let b0: int = c.1 as int;
                            assert(0 <= a0 < w as int && 0 <= b0 < h as int);
                            assert(grid.occupied(a0, b0) == (g0.occupied(a0, b0)
                                && !burnt.contains((a0, b0))));
                            assert(g0.occupied(a0, b0) && !burnt_pre.contains((a0, b0)));
                        }
                        out.push(BurningCell { x: c.0, y: c.1, age: 0 });
                        grid.clear(c.0, c.1);
                        proof {
                            let cc: (int, int) = (c.0 as int, c.1 as int);
                            burnt = burnt_pre.insert(cc);
                            let cell = BurningCell { x: c.0, y: c.1, age: 0 };
                            assert(g0.occupied(cc.0, cc.1) && !burnt_pre.contains(cc));
                            assert(ignite_rec(g0, fx, fy, k as int, eight, burnt_pre) == (
                                seq![cell] + ignite_rec(g0, fx, fy, k as int + 1, eight, burnt).0,
                                ignite_rec(g0, fx, fy, k as int + 1, eight, burnt).1,
                            ));
                            assert(out@ =~= out_pre + seq![cell]);
                            assert(out@.take(out_mid.len() as int) =~= out_mid);
                            assert(out@.skip(out_mid.len() as int) =~= out_pre.skip(
                                out_mid.len() as int,
                            ) + seq![cell]);
                            assert(out@.skip(out_mid.len() as int) + ignite_rec(
                                g0,
                                fx,
                                fy,
                                k as int + 1,
                                eight,
                                burnt,
                            ).0 =~= out_pre.skip(out_mid.len() as int) + (seq![cell] + ignite_rec(
                                g0,
                                fx,
                                fy,
                                k as int + 1,
                                eight,
                                burnt,
                            ).0));
                        }
                    } else {
                        proof {
                            let cc: (int, int) = (c.0 as int, c.1 as int);
                            assert(!(g0.occupied(cc.0, cc.1) && !burnt.contains(cc)));
                            assert(ignite_rec(g0, fx, fy, k as int, eight, burnt) == ignite_rec(
                                g0,
                                fx,
                                fy,
                                k as int + 1,
                                eight,
                                burnt,
                            ));
                        }
                    }
                },
                None => {
                    proof {
                        assert(spec_neighbor(w as int, h as int, fx, fy, k as int) is None);
                        assert(ignite_rec(g0, fx, fy, k as int, eight, burnt) == ignite_rec(
                            g0,
                            fx,
                            fy,
                            k as int + 1,
                            eight,
                            burnt,
                        ));
                    }
                },
            }
            k = k + 1;
        }
        proof {
            let rest0 = propagate_rec(g0, fires@.skip(i as int + 1), p, burnt).0;
            assert(ignite_rec(g0, fx, fy, numngh as int, eight, burnt) == (
                Seq::<BurningCell>::empty(),
                burnt,
            ));
            assert(ignite_rec(g0, fx, fy, 0, eight, burnt_in).0 =~= out@.skip(
                out_mid.len() as int,
            ));
            assert(ignite_rec(g0, fx, fy, 0, eight, burnt_in).1 == burnt);
            assert(propagate_rec(g0, fires@.skip(i as int), p, burnt_in).0 == carried + ignite_rec(
                g0,
                fx,
                fy,
                0,
                eight,
                burnt_in,
            ).0 + rest0);
            assert(propagate_rec(g0, fires@.skip(i as int), p, burnt_in).1 == propagate_rec(
                g0,
                fires@.skip(i as int + 1),
                p,
                burnt,
            ).1);
            assert(out@ =~= out@.take(out_mid.len() as int) + out@.skip(out_mid.len() as int));
            assert(out_before + (carried + ignite_rec(g0, fx, fy, 0, eight, burnt_in).0 + rest0)
                =~= out@ + rest0);
        }
        i = i + 1;
    }
    proof {
        assert(fires@.skip(fires@.len() as int) =~= Seq::<BurningCell>::empty());
        assert(propagate_rec(g0, Seq::<BurningCell>::empty(), p, burnt) == (
            Seq::<BurningCell>::empty(),
            burnt,
        ));
        assert(out@ + Seq::<BurningCell>::empty() =~= out@);
        assert(propagate_rec(g0, fires@, p, Set::empty()).0 == out@);
        assert(propagate_rec(g0, fires@, p, Set::empty()).1 == burnt);
    }
    out
}

/// The simulation engine: the occupancy grid, the active burning set, the
/// two independent arrival processes (spontaneous ignition and regrowth,
/// which must not share drift), and the random source for coordinates.
pub struct FireSimulation {
    grid: BitGrid,
    fires: Vec<BurningCell>,
    fire_proc: ArrivalProcess,
    tree_proc: ArrivalProcess,
    rng: rand::rngs::StdRng,
}

impl FireSimulation {
    /// The occupancy grid.
    pub closed spec fn spec_grid(self) -> BitGrid {
        self.grid
    }

    /// The active burning set, in order.
    pub closed spec fn spec_fires(self) -> Seq<BurningCell> {
        self.fires@
    }

    /// Leftover fractional arrival time of the ignition process.
    pub closed spec fn fire_acc(self) -> u64 {
        self.fire_proc.acc()
    }

    /// Leftover fractional arrival time of the regrowth process.
    pub closed spec fn tree_acc(self) -> u64 {
        self.tree_proc.acc()
    }

    /// Grid width in cells.
    pub open spec fn spec_width(self) -> int {
        self.spec_grid().spec_width()
    }

    /// Grid height in cells.
    pub open spec fn spec_height(self) -> int {
        self.spec_grid().spec_height()
    }

    /// Well-formedness: the grid is well-formed, both arrival processes hold
    /// proper fractions, and every burning cell lies on the grid.
    pub open spec fn wf(self) -> bool {
        &&& self.spec_grid().wf()
        &&& self.fire_acc() < FP_ONE
        &&& self.tree_acc() < FP_ONE
        &&& fires_in_bounds(self.spec_fires(), self.spec_width(), self.spec_height())
    }

    /// How many spontaneous ignitions the next step draws for this gap.
    pub open spec fn spont_count(self, gap: u64) -> int {
        (self.fire_acc() + gap) / (FP_ONE as int)
    }

    /// How many regrowth events the next step draws for this gap.
    pub open spec fn regrow_count(self, gap: u64) -> int {
        (self.tree_acc() + gap) / (FP_ONE as int)
    }

    /// The carried-and-contagion part of the next burning list.
    pub open spec fn next_propagated(self, p: SimParams) -> Seq<BurningCell> {
        propagate_rec(self.spec_grid(), self.spec_fires(), p, Set::empty()).0
    }

    /// The set of cells contagion ignites (and clears) in the next step.
    pub open spec fn next_burnt(self, p: SimParams) -> Set<(int, int)> {
        propagate_rec(self.spec_grid(), self.spec_fires(), p, Set::empty()).1
    }

    /// Builds an empty simulation: no trees, no fires, no leftover arrival
    /// time, and a random source replaying the stream of `seed`.
    pub fn new(width: usize, height: usize, seed: u64) -> (s: FireSimulation)
        requires
            0 < width <= 0xffff,
            0 < height <= 0xffff,
        ensures
            s.wf(),
            s.spec_width() == width,
            s.spec_height() == height,
            s.spec_fires().len() == 0,
            s.fire_acc() == 0,
            s.tree_acc() == 0,
            forall|x: int, y: int|
                0 <= x < width && 0 <= y < height ==> !s.spec_grid().occupied(x, y),
    {
        FireSimulation {
            grid: BitGrid::new(width, height),
            fires: Vec::new(),
            fire_proc: ArrivalProcess::new(),
            tree_proc: ArrivalProcess::new(),
            rng: rng_from_seed(seed),
        }
    }

    /// Grid width in cells.
    pub fn width(&self) -> (r: usize)
        ensures
            r == self.spec_width(),
    {
        self.grid.width()
    }

    /// Grid height in cells.
    pub fn height(&self) -> (r: usize)
        ensures
            r == self.spec_height(),
    {
        self.grid.height()
    }

    /// Whether a live tree occupies cell (x, y); read by the renderer.
    pub fn occupied_at(&self, x: usize, y: usize) -> (r: bool)
        requires
            self.wf(),
            x < self.spec_width(),
            y < self.spec_height(),
        ensures
            r == self.spec_grid().occupied(x as int, y as int),
    {
        self.grid.get(x, y)
    }

    /// Read-only view of the current burning set, with ages.
    pub fn burning(&self) -> (r: &Vec<BurningCell>)
        ensures
            r@ == self.spec_fires(),
    {
        &self.fires
    }

    /// Plants a tree at (x, y): deterministic regrowth of a single cell.
    pub fn grow_tree(&mut self, x: usize, y: usize)
        requires
            old(self).wf(),
            x < old(self).spec_width(),
            y < old(self).spec_height(),
        ensures
            final(self).wf(),
            BitGrid::updated(
                old(self).spec_grid(),
                final(self).spec_grid(),
                x as int,
                y as int,
                true,
            ),
            final(self).spec_fires() == old(self).spec_fires(),
            final(self).fire_acc() == old(self).fire_acc(),
            final(self).tree_acc() == old(self).tree_acc(),
    {
        self.grid.set(x, y)
    }

    /// Scatters an initial tree cover: each cell of the grid is planted with
    /// probability one in `one_in`, drawn from the simulation's own random
    /// source; cells already occupied stay occupied.
    pub fn populate_random(&mut self, one_in: usize)
        requires
            old(self).wf(),
            one_in > 0,
        ensures
            final(self).wf(),
            final(self).spec_width() == old(self).spec_width(),
            final(self).spec_height() == old(self).spec_height(),
            forall|a: int, b: int|
                0 <= a < old(self).spec_width() && 0 <= b < old(self).spec_height()
                    && old(self).spec_grid().occupied(a, b) ==> (#[trigger] final(self).spec_grid().occupied(a, b)),
            final(self).spec_fires() == old(self).spec_fires(),
            final(self).fire_acc() == old(self).fire_acc(),
            final(self).tree_acc() == old(self).tree_acc(),
    {
        let ghost snap: FireSimulation = *self;
        let w: usize = self.grid.width();
        let h: usize = self.grid.height();
        let mut y: usize = 0;
        while y < h
            invariant
                y <= h,
                one_in > 0,
                w == snap.spec_width(),
                h == snap.spec_height(),
                snap.wf(),
                self.grid.wf(),
                self.grid.spec_width() == snap.spec_width(),
                self.grid.spec_height() == snap.spec_height(),
                forall|a: int, b: int|
                    0 <= a < snap.spec_width() && 0 <= b < snap.spec_height()
                        && snap.spec_grid().occupied(a, b) ==> (#[trigger] self.grid.occupied(
                        a,
                        b,
                    )),
                self.fires == snap.fires,
                self.fire_proc == snap.fire_proc,
                self.tree_proc == snap.tree_proc,
            decreases h - y,
        {
            let mut x: usize = 0;
            while x < w
                invariant
                    x <= w,
                    y < h,
                    one_in > 0,
                    w == snap.spec_width(),
                    h == snap.spec_height(),
                    snap.wf(),
                    self.grid.wf(),
                    self.grid.spec_width() == snap.spec_width(),
                    self.grid.spec_height() == snap.spec_height(),
                    forall|a: int, b: int|
                        0 <= a < snap.spec_width() && 0 <= b < snap.spec_height()
                            && snap.spec_grid().occupied(a, b) ==> (#[trigger] self.grid.occupied(
                            a,
                            b,
                        )),
                    self.fires == snap.fires,
                    self.fire_proc == snap.fire_proc,
                    self.tree_proc == snap.tree_proc,
                decreases w - x,
            {
                if rng_below(&mut self.rng, one_in) == 0 {
                    self.grid.set(x, y);
                }
                x = x + 1;
            }
            y = y + 1;
        }
    }

    /// Runs one simulation step, in order: ages and spreads the current
    /// fires (contagion clears each ignited cell's occupancy, first writer
    /// wins); draws the spontaneous-ignition count from the ignition process
    /// and adds that many fires at random coordinates at age 0; adds the
    /// manually triggered coordinates at age 0; draws the regrowth count
    /// from the regrowth process and plants that many random cells. Every
    /// ignition — contagion, spontaneous or manual — clears the cell's
    /// occupancy at the moment of catching fire, so a burning cell is never
    /// simultaneously a live tree. The two gaps are the sampled time
    /// advances of the two arrival processes for this step, in `FP_ONE`
    /// fixed point.
    pub fn step(&mut self, p: SimParams, manual: &Vec<(usize, usize)>, ignition_gap: u64, regrowth_gap: u64)
        requires
            old(self).wf(),
            forall|j: int|
                0 <= j < manual@.len() ==> (#[trigger] manual@[j]).0 < old(self).spec_width()
                    && manual@[j].1 < old(self).spec_height(),
            ignition_gap <= u64::MAX - FP_ONE,
            regrowth_gap <= u64::MAX - FP_ONE,
        ensures
            final(self).wf(),
            final(self).spec_width() == old(self).spec_width(),
            final(self).spec_height() == old(self).spec_height(),
            final(self).fire_acc() == (old(self).fire_acc() + ignition_gap) % (FP_ONE as int),
            final(self).tree_acc() == (old(self).tree_acc() + regrowth_gap) % (FP_ONE as int),
            final(self).spec_fires().len() == old(self).next_propagated(p).len() + old(self).spont_count(ignition_gap) + manual@.len(),
            final(self).spec_fires().take(old(self).next_propagated(p).len() as int) == old(self).next_propagated(p),
            forall|t: int|
                old(self).next_propagated(p).len() <= t < old(self).next_propagated(p).len() + old(self).spont_count(ignition_gap) ==> (#[trigger] final(self).spec_fires()[t]).age == 0
                    && final(self).spec_fires()[t].x < old(self).spec_width() && final(self).spec_fires()[t].y < old(self).spec_height(),
            forall|j: int|
                0 <= j < manual@.len() ==> final(self).spec_fires()[old(self).next_propagated(
                    p,
                ).len() + old(self).spont_count(ignition_gap) + j] == (BurningCell {
                    x: (#[trigger] manual@[j]).0,
                    y: manual@[j].1,
                    age: 0,
                }),
            old(self).regrow_count(regrowth_gap) == 0 ==> forall|a: int, b: int|
                0 <= a < old(self).spec_width() && 0 <= b < old(self).spec_height()
                    && (#[trigger] final(self).spec_grid().occupied(a, b)) ==> old(self).spec_grid().occupied(a, b),
            old(self).regrow_count(regrowth_gap) == 0 ==> forall|t: int|
                0 <= t < manual@.len() ==> !final(self).spec_grid().occupied(
                    (#[trigger] manual@[t]).0 as int,
                    manual@[t].1 as int,
                ),
            old(self).spont_count(ignition_gap) == 0 && old(self).regrow_count(regrowth_gap) == 0
                ==> forall|a: int, b: int|
                0 <= a < old(self).spec_width() && 0 <= b < old(self).spec_height()
                    ==> (#[trigger] final(self).spec_grid().occupied(a, b)) == (old(self).spec_grid().occupied(a, b) && !old(self).next_burnt(p).contains((a, b))
                    && !manual_contains(manual@, a, b)),
            forall|a: int, b: int|
                0 <= a < old(self).spec_width() && 0 <= b < old(self).spec_height()
                    && (#[trigger] final(self).spec_grid().occupied(a, b)) && !old(self).spec_grid().occupied(a, b) ==> old(self).regrow_count(regrowth_gap) > 0,
            old(self).regrow_count(regrowth_gap) == 0 ==> forall|t: int|
                old(self).next_propagated(p).len() <= t < old(self).next_propagated(p).len() + old(self).spont_count(ignition_gap) ==> !final(self).spec_grid().occupied(
                    (#[trigger] final(self).spec_fires()[t]).x as int,
                    final(self).spec_fires()[t].y as int,
                ),
            old(self).regrow_count(regrowth_gap) == 0 ==> forall|a: int, b: int|
                0 <= a < old(self).spec_width() && 0 <= b < old(self).spec_height() && old(self).next_burnt(p).contains((a, b)) ==> !(#[trigger] final(self).spec_grid().occupied(a, b)),
    {
        let ghost init: FireSimulation = *self;
        proof {
            self.grid.lemma_dims_bounded();
        }
        let w: usize = self.grid.width();
        let h: usize = self.grid.height();
        let mut new_fires: Vec<BurningCell> = propagate(&mut self.grid, &self.fires, p);
        let ghost prop0: Seq<BurningCell> = init.next_propagated(p);
        let ghost after_prop_grid: BitGrid = self.grid;
        let nf: u64 = self.fire_proc.draw(ignition_gap);
        let ghost fire_proc_after: ArrivalProcess = self.fire_proc;
        let mut c: u64 = 0;
        while c < nf
            invariant
                c <= nf,
                0 < w <= 0xffff,
                0 < h <= 0xffff,
                new_fires@.len() == prop0.len() + c,
                new_fires@.take(prop0.len() as int) == prop0,
                forall|t: int|
                    prop0.len() <= t < new_fires@.len() ==> (#[trigger] new_fires@[t]).age == 0
                        && new_fires@[t].x < w && new_fires@[t].y < h,
                self.grid.wf(),
                self.grid.spec_width() == w,
                self.grid.spec_height() == h,
                after_prop_grid.wf(),
                after_prop_grid.spec_width() == w,
                after_prop_grid.spec_height() == h,
                forall|a: int, b: int|
                    0 <= a < w && 0 <= b < h && (#[trigger] self.grid.occupied(a, b))
                        ==> after_prop_grid.occupied(a, b),
                forall|t: int|
                    prop0.len() <= t < new_fires@.len() ==> !self.grid.occupied(
                        (#[trigger] new_fires@[t]).x as int,
                        new_fires@[t].y as int,
                    ),
                c == 0 ==> self.grid == after_prop_grid,
                self.fires == init.fires,
                self.fire_proc == fire_proc_after,
                self.tree_proc == init.tree_proc,
            decreases nf - c,
        {
            let x: usize = rng_below(&mut self.rng, w);
            let y: usize = rng_below(&mut self.rng, h);
            let ghost before: Seq<BurningCell> = new_fires@;
            new_fires.push(BurningCell { x, y, age: 0 });
            let ghost grid_pre: BitGrid = self.grid;
            self.grid.clear(x, y);
            proof {
                assert(new_fires@.take(prop0.len() as int) =~= before.take(prop0.len() as int));
                assert forall|t: int| prop0.len() <= t < new_fires@.len() implies !self.grid.occupied(
                    (#[trigger] new_fires@[t]).x as int,
                    new_fires@[t].y as int,
                ) by {
                    if t < before.len() {
                        assert(new_fires@[t] == before[t]);
                        assert(!grid_pre.occupied(before[t].x as int, before[t].y as int));
                    } else {
                        assert(new_fires@[t] == (BurningCell { x, y, age: 0 }));
                    }
                }
            }
            c = c + 1;
        }
        let ghost after_spont: Seq<BurningCell> = new_fires@;
        let ghost after_spont_grid: BitGrid = self.grid;
        proof {
            assert(forall|t: int|
                prop0.len() <= t < after_spont.len() ==> (#[trigger] after_spont[t]).age == 0
                    && after_spont[t].x < w && after_spont[t].y < h);
            assert(forall|t: int|
                prop0.len() <= t < after_spont.len() ==> !after_spont_grid.occupied(
                    (#[trigger] after_spont[t]).x as int,
                    after_spont[t].y as int,
                ));
        }
        let mut j: usize = 0;
        while j < manual.len()
            invariant
                j <= manual@.len(),
                0 < w <= 0xffff,
                0 < h <= 0xffff,
                forall|t: int|
                    0 <= t < manual@.len() ==> (#[trigger] manual@[t]).0 < w && manual@[t].1 < h,
                after_spont.len() == prop0.len() + nf,
                new_fires@.len() == after_spont.len() + j,
                new_fires@.take(after_spont.len() as int) == after_spont,
                forall|t: int|
                    0 <= t < j ==> new_fires@[after_spont.len() + t] == (BurningCell {
                        x: (#[trigger] manual@[t]).0,
                        y: manual@[t].1,
                        age: 0,
                    }),
                self.grid.wf(),
                self.grid.spec_width() == w,
                self.grid.spec_height() == h,
                after_spont_grid.wf(),
                after_spont_grid.spec_width() == w,
                after_spont_grid.spec_height() == h,
                forall|a: int, b: int|
                    0 <= a < w && 0 <= b < h ==> (#[trigger] self.grid.occupied(a, b)) == (
                    after_spont_grid.occupied(a, b) && !manual_contains(
                        manual@.take(j as int),
                        a,
                        b,
                    )),
                self.fires == init.fires,
                self.fire_proc == fire_proc_after,
                self.tree_proc == init.tree_proc,
            decreases manual@.len() - j,
        {
            let m: (usize, usize) = manual[j];
            let ghost before: Seq<BurningCell> = new_fires@;
            new_fires.push(BurningCell { x: m.0, y: m.1, age: 0 });
            let ghost grid_before: BitGrid = self.grid;
            self.grid.clear(m.0, m.1);
            proof {
                assert(new_fires@.take(after_spont.len() as int) =~= before.take(
                    after_spont.len() as int,
                ));
                assert(manual@.take(j as int + 1) =~= manual@.take(j as int).push(m));
                assert forall|a: int, b: int| 0 <= a < w && 0 <= b < h implies (
                #[trigger] self.grid.occupied(a, b)) == (after_spont_grid.occupied(a, b)
                    && !manual_contains(manual@.take(j as int + 1), a, b)) by {
                    let mj = manual@.take(j as int + 1);
                    if a == m.0 as int && b == m.1 as int {
                        assert(mj[j as int] == m);
                        assert(manual_contains(mj, a, b));
                        assert(!self.grid.occupied(a, b));
                    } else {
                        assert(self.grid.occupied(a, b) == grid_before.occupied(a, b));
                        assert(manual_contains(mj, a, b) == manual_contains(
                            manual@.take(j as int),
                            a,
                            b,
                        )) by {
                            if manual_contains(mj, a, b) {
                                let t = choose|t: int|
                                    0 <= t < mj.len() && (#[trigger] mj[t]).0 == a && mj[t].1 == b;
                                assert(t != j);
                                assert(manual@.take(j as int)[t] == mj[t]);
                                assert(manual_contains(manual@.take(j as int), a, b));
                            }
                            if manual_contains(manual@.take(j as int), a, b) {
                                let t = choose|t: int|
                                    0 <= t < j && (#[trigger] manual@.take(j as int)[t]).0 == a
                                        && manual@.take(j as int)[t].1 == b;
                                assert(mj[t] == manual@.take(j as int)[t]);
                                assert(manual_contains(mj, a, b));
                            }
                        }
                    }
                }
            }
            j = j + 1;
        }
        let ghost after_manual_grid: BitGrid = self.grid;
        let nt: u64 = self.tree_proc.draw(regrowth_gap);
        let ghost tree_proc_after: ArrivalProcess = self.tree_proc;
        let mut c2: u64 = 0;
        while c2 < nt
            invariant
                c2 <= nt,
                0 < w <= 0xffff,
                0 < h <= 0xffff,
                self.grid.wf(),
                self.grid.spec_width() == w,
                self.grid.spec_height() == h,
                after_manual_grid.wf(),
                after_manual_grid.spec_width() == w,
                after_manual_grid.spec_height() == h,
                forall|a: int, b: int|
                    0 <= a < w && 0 <= b < h && after_manual_grid.occupied(a, b)
                        ==> (#[trigger] self.grid.occupied(a, b)),
                c2 == 0 ==> self.grid == after_manual_grid,
                self.fires == init.fires,
                self.fire_proc == fire_proc_after,
                self.tree_proc == tree_proc_after,
            decreases nt - c2,
        {
            let x: usize = rng_below(&mut self.rng, w);
            let y: usize = rng_below(&mut self.rng, h);
            self.grid.set(x, y);
            c2 = c2 + 1;
        }
        proof {
            assert(manual@.take(manual@.len() as int) =~= manual@);
            assert forall|a: int, b: int|
                0 <= a < w && 0 <= b < h && (#[trigger] after_manual_grid.occupied(a, b)) implies
                init.spec_grid().occupied(a, b) && !init.next_burnt(p).contains((a, b)) by {
                assert(after_manual_grid.occupied(a, b) == (after_spont_grid.occupied(a, b)
                    && !manual_contains(manual@, a, b)));
                assert(after_spont_grid.occupied(a, b) ==> after_prop_grid.occupied(a, b));
                assert(after_prop_grid.occupied(a, b) == (init.spec_grid().occupied(a, b)
                    && !init.next_burnt(p).contains((a, b))));
            }
            if nt == 0 {
                assert(self.grid == after_manual_grid);
                assert forall|t: int| 0 <= t < manual@.len() implies !self.grid.occupied(
                    (#[trigger] manual@[t]).0 as int,
                    manual@[t].1 as int,
                ) by {
                    let a = manual@[t].0 as int;
                    let b = manual@[t].1 as int;
                    assert(manual_contains(manual@, a, b));
                    assert(after_manual_grid.occupied(a, b) == (after_spont_grid.occupied(a, b)
                        && !manual_contains(manual@, a, b)));
                }
            }
            if nf == 0 && nt == 0 {
                assert(after_spont_grid == after_prop_grid);
                assert forall|a: int, b: int| 0 <= a < w && 0 <= b < h implies (
                #[trigger] self.grid.occupied(a, b)) == (init.spec_grid().occupied(a, b)
                    && !init.next_burnt(p).contains((a, b)) && !manual_contains(
                    manual@,
                    a,
                    b,
                )) by {
                    assert(self.grid.occupied(a, b) == (after_spont_grid.occupied(a, b)
                        && !manual_contains(manual@, a, b)));
                    assert(after_prop_grid.occupied(a, b) == (init.spec_grid().occupied(a, b)
                        && !init.next_burnt(p).contains((a, b))));
                }
            }
            assert forall|a: int, b: int|
                0 <= a < w && 0 <= b < h && (#[trigger] self.grid.occupied(a, b))
                    && !init.spec_grid().occupied(a, b) implies nt > 0 by {
                if nt == 0 {
                    assert(self.grid == after_manual_grid);
                    assert(after_manual_grid.occupied(a, b) == (after_spont_grid.occupied(a, b)
                        && !manual_contains(manual@, a, b)));
                    assert(after_spont_grid.occupied(a, b) ==> after_prop_grid.occupied(a, b));
                    assert(after_prop_grid.occupied(a, b) == (init.spec_grid().occupied(a, b)
                        && !init.next_burnt(p).contains((a, b))));
                }
            }
            if nt == 0 {
                assert forall|t: int|
                    prop0.len() <= t < after_spont.len() implies !self.grid.occupied(
                    (#[trigger] new_fires@[t]).x as int,
                    new_fires@[t].y as int,
                ) by {
                    assert(new_fires@.take(after_spont.len() as int) == after_spont);
                    assert(new_fires@.take(after_spont.len() as int)[t] == new_fires@[t]);
                    let a = after_spont[t].x as int;
                    let b = after_spont[t].y as int;
                    assert(0 <= a < w as int && 0 <= b < h as int);
                    assert(!after_spont_grid.occupied(a, b));
                    assert(after_manual_grid.occupied(a, b) == (after_spont_grid.occupied(a, b)
                        && !manual_contains(manual@, a, b)));
                    assert(self.grid == after_manual_grid);
                }
                assert forall|a: int, b: int|
                    0 <= a < w && 0 <= b < h && init.next_burnt(p).contains((a, b)) implies !(
                #[trigger] self.grid.occupied(a, b)) by {
                    assert(after_prop_grid.occupied(a, b) == (init.spec_grid().occupied(a, b)
                        && !init.next_burnt(p).contains((a, b))));
                    assert(!after_prop_grid.occupied(a, b));
                    assert(after_spont_grid.occupied(a, b) ==> after_prop_grid.occupied(a, b));
                    assert(after_manual_grid.occupied(a, b) == (after_spont_grid.occupied(a, b)
                        && !manual_contains(manual@, a, b)));
                    assert(self.grid == after_manual_grid);
                }
            }
            let lp: int = prop0.len() as int;
            let ls: int = after_spont.len() as int;
            assert forall|t: int| 0 <= t < ls implies new_fires@[t] == after_spont[t] by {
                assert(new_fires@.take(ls) == after_spont);
                assert(new_fires@.take(ls)[t] == new_fires@[t]);
            }
            assert forall|t: int| 0 <= t < lp implies new_fires@.take(lp)[t] == prop0[t] by {
                assert(after_spont.take(lp) == prop0);
                assert(after_spont.take(lp)[t] == after_spont[t]);
                assert(new_fires@.take(lp)[t] == new_fires@[t]);
            }
            assert(new_fires@.take(lp) =~= prop0);
            assert(fires_in_bounds(prop0, w as int, h as int));
            assert forall|t: int| lp <= t < ls implies (#[trigger] new_fires@[t]).age == 0
                && new_fires@[t].x < w && new_fires@[t].y < h by {
                assert(new_fires@[t] == after_spont[t]);
                assert(after_spont[t].age == 0 && after_spont[t].x < w && after_spont[t].y < h);
            }
            assert forall|t: int| 0 <= t < new_fires@.len() implies (#[trigger] new_fires@[t]).x
                < w && new_fires@[t].y < h by {
                if t < lp {
                    assert(new_fires@[t] == after_spont[t]);
                    assert(after_spont[t] == prop0[t]);
                    assert(prop0[t].x < w && prop0[t].y < h);
                } else if t < ls {
                    assert(new_fires@[t] == after_spont[t]);
                } else {
                    assert(new_fires@[t] == (BurningCell {
                        x: manual@[t - ls].0,
                        y: manual@[t - ls].1,
                        age: 0,
                    }));
                }
            }
        }
        self.fires = new_fires;
    }

    /// Reorders the burning list by ascending block index of each cell's
    /// coordinates: a pure permutation of the list, chosen to improve memory
    /// locality of the next step's neighbour scan; it has no effect on the
    /// simulated outcome.
    pub fn reorder_by_locality(&mut self)
        requires
            old(self).wf(),
        ensures
            final(self).wf(),
            final(self).spec_grid() == old(self).spec_grid(),
            final(self).fire_acc() == old(self).fire_acc(),
            final(self).tree_acc() == old(self).tree_acc(),
            final(self).spec_fires().to_multiset() == old(self).spec_fires().to_multiset(),
            sorted_by_block(old(self).spec_grid(), final(self).spec_fires()),
    {
        let ghost snap: FireSimulation = *self;
        let n: usize = self.fires.len();
        let mut i: usize = 1;
        while i < n
            invariant
                1 <= i,
                i <= n || n == 0,
                n == self.fires@.len(),
                snap.wf(),
                self.grid == snap.grid,
                self.fires@.to_multiset() == snap.fires@.to_multiset(),
                fires_in_bounds(self.fires@, snap.spec_width(), snap.spec_height()),
                self.fire_proc == snap.fire_proc,
                self.tree_proc == snap.tree_proc,
                forall|t1: int, t2: int|
                    0 <= t1 <= t2 < i ==> block_key(snap.spec_grid(), #[trigger] self.fires@[t1])
                        <= block_key(snap.spec_grid(), #[trigger] self.fires@[t2]),
            decreases n - i,
        {
            let mut j: usize = i;
            while j > 0
                invariant_except_break
                    j <= i < n,
                    n == self.fires@.len(),
                    snap.wf(),
                    self.grid == snap.grid,
                    self.fires@.to_multiset() == snap.fires@.to_multiset(),
                    fires_in_bounds(self.fires@, snap.spec_width(), snap.spec_height()),
                    self.fire_proc == snap.fire_proc,
                    self.tree_proc == snap.tree_proc,
                    forall|t1: int, t2: int|
                        0 <= t1 <= t2 <= i && t1 != j && t2 != j ==> block_key(
                            snap.spec_grid(),
                            #[trigger] self.fires@[t1],
                        ) <= block_key(snap.spec_grid(), #[trigger] self.fires@[t2]),
                    forall|t: int|
                        j < t <= i ==> block_key(snap.spec_grid(), self.fires@[j as int])
                            <= block_key(snap.spec_grid(), #[trigger] self.fires@[t]),
                ensures
                    n == self.fires@.len(),
                    snap.wf(),
                    self.grid == snap.grid,
                    self.fires@.to_multiset() == snap.fires@.to_multiset(),
                    fires_in_bounds(self.fires@, snap.spec_width(), snap.spec_height()),
                    self.fire_proc == snap.fire_proc,
                    self.tree_proc == snap.tree_proc,
                    forall|t1: int, t2: int|
                        0 <= t1 <= t2 <= i ==> block_key(
                            snap.spec_grid(),
                            #[trigger] self.fires@[t1],
                        ) <= block_key(snap.spec_grid(), #[trigger] self.fires@[t2]),
                decreases j,
            {
                let a: BurningCell = self.fires[j - 1];
                let b: BurningCell = self.fires[j];
                let ka: usize = self.grid.block_index(a.x, a.y);
                let kb: usize = self.grid.block_index(b.x, b.y);
                if ka <= kb {
                    proof {
                        assert forall|t1: int, t2: int| 0 <= t1 <= t2 <= i implies block_key(
                            snap.spec_grid(),
                            self.fires@[t1],
                        ) <= block_key(snap.spec_grid(), self.fires@[t2]) by {
                            if t2 == j && t1 < j {
                                assert(block_key(snap.spec_grid(), self.fires@[t1]) <= block_key(
                                    snap.spec_grid(),
                                    self.fires@[j - 1],
                                ));
                            }
                        }
                    }
                    break ;
                }
                let ghost pre: Seq<BurningCell> = self.fires@;
                self.fires.set(j - 1, b);
                self.fires.set(j, a);
                proof {
                    let s1 = pre.update(j - 1, b);
                    let s2 = s1.update(j as int, a);
                    assert(self.fires@ == s2);
                    vstd::seq_lib::to_multiset_update(pre, j - 1, b);
                    vstd::seq_lib::to_multiset_update(s1, j as int, a);
                    assert(s1[j as int] == b);
                    assert(pre.to_multiset().contains(a)) by {
                        vstd::seq_lib::to_multiset_contains(pre, a);
                        assert(pre[j - 1] == a);
                        assert(pre.contains(a));
                    }
                    assert(s2.to_multiset() =~= pre.to_multiset());
                    assert forall|t: int| 0 <= t < s2.len() implies (#[trigger] s2[t]).x
                        < snap.spec_width() && s2[t].y < snap.spec_height() by {
                        if t != j - 1 && t != j {
                            assert(s2[t] == pre[t]);
                        }
                    }
                }
                j = j - 1;
            }
            i = i + 1;
        }
    }
}

} // verus!
