//! Properties of a tick, stated over the grid's mathematical view.

use vstd::prelude::*;

use crate::grid::{lemma_dest_in_bounds, scans_before, GridView};
use crate::material::Material;

verus! {

/// A particle that moves goes one row down, to a column at most one away,
/// into a cell that was empty.
proof fn lemma_move_shape(g: GridView, s: (int, int))
    requires
        g.is_occupied(s.0, s.1),
        g.dest(s.0, s.1) != s,
    ensures
        g.dest(s.0, s.1).1 == s.1 + 1,
        s.0 - 1 <= g.dest(s.0, s.1).0 <= s.0 + 1,
        g.is_free(g.dest(s.0, s.1).0, g.dest(s.0, s.1).1),
{
}

/// The cell `t` after a tick holds the particle of its last writer.
proof fn lemma_tick_last_writer(g: GridView, s: (int, int), t: (int, int))
    requires
        g.wf(),
        g.in_bounds(t.0, t.1),
        g.writes(s, t),
        forall|s2: (int, int)| scans_before(s, s2) && #[trigger] g.writes(s2, t) ==> false,
    ensures
        g.tick().get(t.0, t.1) == g.get(s.0, s.1),
{
    let e = (0, g.height as int);
    assert(g.last_writer_before(s, t, e));
    let a = choose|s1: (int, int)| #[trigger] g.last_writer_before(s1, t, e);
    crate::grid::lemma_last_writer_unique(g, a, s, t, e);
}

/// A cell that no particle moves to is empty after a tick.
proof fn lemma_tick_unwritten(g: GridView, t: (int, int))
    requires
        g.wf(),
        g.in_bounds(t.0, t.1),
        forall|s: (int, int)| !#[trigger] g.writes(s, t),
    ensures
        g.tick().get(t.0, t.1) is None,
{
    assert(!exists|s: (int, int)| #[trigger] g.last_writer_before(s, t, (0, g.height as int)));
}

/// A particle whose move is to stay where it is keeps its cell: every other
/// particle that moves goes to a cell that was empty.
pub proof fn lemma_staying_particle_kept(g: GridView, x: int, y: int)
    requires
        g.wf(),
        g.is_occupied(x, y),
        g.dest(x, y) == (x, y),
    ensures
        g.tick().get(x, y) == g.get(x, y),
{
    assert forall|s2: (int, int)| scans_before((x, y), s2) && #[trigger] g.writes(s2, (x, y)) implies false by {
        lemma_move_shape(g, s2);
    }
    lemma_tick_last_writer(g, (x, y), (x, y));
}

/// A tick creates no particle: every occupied cell of the successor holds the
/// particle of a cell whose move targets it, so a grid with no particle stays
/// without one.
pub proof fn lemma_tick_creates_nothing(g: GridView, x: int, y: int)
    requires
        g.wf(),
        g.in_bounds(x, y),
        g.tick().get(x, y) is Some,
    ensures
        exists|s: (int, int)| #[trigger] g.writes(s, (x, y)) && g.get(s.0, s.1) == g.tick().get(x, y),
{
    let t = (x, y);
    let e = (0, g.height as int);
    let s = choose|s: (int, int)| #[trigger] g.last_writer_before(s, t, e);
    assert(g.writes(s, t));
}

/// A grid with no particle is still empty after a tick.
pub proof fn lemma_empty_stays_empty(g: GridView)
    requires
        g.wf(),
        forall|x: int, y: int| g.in_bounds(x, y) ==> #[trigger] g.get(x, y) is None,
    ensures
        forall|x: int, y: int| g.in_bounds(x, y) ==> #[trigger] g.tick().get(x, y) is None,
{
    assert forall|x: int, y: int| g.in_bounds(x, y) implies #[trigger] g.tick().get(x, y) is None by {
        lemma_tick_unwritten(g, (x, y));
    }
}

/// A lone particle with an empty cell below it falls one cell straight down,
/// leaving its old cell and every other cell empty.
pub proof fn lemma_lone_particle_falls(g: GridView, x: int, y: int)
    requires
        g.wf(),
        g.is_occupied(x, y),
        y + 1 < g.height,
        forall|a: int, b: int| g.in_bounds(a, b) && (a, b) != (x, y) ==> #[trigger] g.get(a, b) is None,
    ensures
        g.tick().get(x, y + 1) == g.get(x, y),
        forall|a: int, b: int| g.in_bounds(a, b) && (a, b) != (x, y + 1) ==> #[trigger] g.tick().get(a, b) is None,
{
    assert(g.get(x, y + 1) is None);
    assert(g.dest(x, y) == (x, y + 1));
    assert forall|s2: (int, int)| scans_before((x, y), s2) && #[trigger] g.writes(s2, (x, y + 1)) implies false by {
        assert(g.get(s2.0, s2.1) is None);
    }
    lemma_tick_last_writer(g, (x, y), (x, y + 1));
    assert forall|a: int, b: int| g.in_bounds(a, b) && (a, b) != (x, y + 1) implies #[trigger] g.tick().get(a, b) is None by {
        assert forall|s: (int, int)| !#[trigger] g.writes(s, (a, b)) by {
            if s != (x, y) && g.in_bounds(s.0, s.1) {
                assert(g.get(s.0, s.1) is None);
            }
        }
        lemma_tick_unwritten(g, (a, b));
    }
}

/// A particle on the bottom row stays where it is.
pub proof fn lemma_bottom_row_rests(g: GridView, x: int)
    requires
        g.wf(),
        g.is_occupied(x, g.height - 1),
    ensures
        g.tick().get(x, g.height - 1) == g.get(x, g.height - 1),
{
    lemma_staying_particle_kept(g, x, g.height - 1);
}

/// Sand blocked below, with an empty cell down-left, moves there and leaves its
/// cell empty.
pub proof fn lemma_sand_slides_left(g: GridView, x: int, y: int)
    requires
        g.wf(),
        g.is_occupied(x, y),
        g.is_occupied(x, y + 1),
        g.is_free(x - 1, y + 1),
    ensures
        g.tick().get(x - 1, y + 1) == g.get(x, y),
        g.tick().get(x, y) is None,
{
    let t = (x - 1, y + 1);
    assert(g.dest(x, y) == t);
    assert forall|s2: (int, int)| scans_before((x, y), s2) && #[trigger] g.writes(s2, t) implies false by {
        if g.dest(s2.0, s2.1) != s2 {
            lemma_move_shape(g, s2);
        }
    }
    lemma_tick_last_writer(g, (x, y), t);
    assert forall|s: (int, int)| !#[trigger] g.writes(s, (x, y)) by {
        if g.writes(s, (x, y)) && s != (x, y) {
            lemma_move_shape(g, s);
        }
    }
    lemma_tick_unwritten(g, (x, y));
}

/// Sand blocked below and down-left, with an empty cell down-right, moves there
/// and leaves its cell empty, unless a later particle in scan order takes that
/// cell: the one to its right falling straight down, or the one two to its
/// right, itself blocked below, sliding down-left.
pub proof fn lemma_sand_slides_right(g: GridView, x: int, y: int)
    requires
        g.wf(),
        g.is_occupied(x, y),
        g.is_occupied(x, y + 1),
        !g.is_free(x - 1, y + 1),
        g.is_free(x + 1, y + 1),
        !g.is_occupied(x + 1, y),
        !(g.is_occupied(x + 2, y) && !g.is_free(x + 2, y + 1)),
    ensures
        g.tick().get(x + 1, y + 1) == g.get(x, y),
        g.tick().get(x, y) is None,
{
    let t = (x + 1, y + 1);
    assert(g.dest(x, y) == t);
    assert forall|s2: (int, int)| scans_before((x, y), s2) && #[trigger] g.writes(s2, t) implies false by {
        if g.dest(s2.0, s2.1) != s2 {
            lemma_move_shape(g, s2);
        }
    }
    lemma_tick_last_writer(g, (x, y), t);
    assert forall|s: (int, int)| !#[trigger] g.writes(s, (x, y)) by {
        if g.writes(s, (x, y)) && s != (x, y) {
            lemma_move_shape(g, s);
        }
    }
    lemma_tick_unwritten(g, (x, y));
}

/// Sand blocked below, down-left and down-right stays where it is.
pub proof fn lemma_sand_blocked_rests(g: GridView, x: int, y: int)
    requires
        g.wf(),
        g.is_occupied(x, y),
        !g.is_free(x, y + 1),
        !g.is_free(x - 1, y + 1),
        !g.is_free(x + 1, y + 1),
    ensures
        g.tick().get(x, y) == g.get(x, y),
{
    lemma_staying_particle_kept(g, x, y);
}

/// Every particle's cells below, down-left and down-right are occupied or
/// outside the grid.
pub open spec fn is_settled(g: GridView) -> bool {
    forall|x: int, y: int|
        #[trigger] g.is_occupied(x, y) ==> !g.is_free(x, y + 1) && !g.is_free(x - 1, y + 1) && !g.is_free(
            x + 1,
            y + 1,
        )
}

/// A settled grid is unchanged by a tick, and so by any number of ticks.
pub proof fn lemma_settled_is_fixed(g: GridView)
    requires
        g.wf(),
        is_settled(g),
    ensures
        g.tick() == g,
{
    let n = g.tick();
    assert forall|y: int| 0 <= y < g.height implies #[trigger] n.rows[y] == g.rows[y] by {
        assert forall|x: int| 0 <= x < g.width implies n.rows[y][x] == g.rows[y][x] by {
            if g.is_occupied(x, y) {
                lemma_staying_particle_kept(g, x, y);
            } else {
                assert forall|s: (int, int)| !#[trigger] g.writes(s, (x, y)) by {
                    if g.writes(s, (x, y)) {
                        assert(g.is_occupied(s.0, s.1));
                    }
                }
                lemma_tick_unwritten(g, (x, y));
            }
        }
        assert(n.rows[y] =~= g.rows[y]);
    }
    assert(n.rows =~= g.rows);
}

/// In a settled grid every particle above the bottom row rests on another
/// particle.
pub proof fn lemma_settled_rests_on_support(g: GridView, x: int, y: int)
    requires
        g.wf(),
        is_settled(g),
        g.is_occupied(x, y),
        y + 1 < g.height,
    ensures
        g.is_occupied(x, y + 1),
{
}

/// When every particle but the one at `(x, y)` stays put, a tick moves that one
/// particle to its destination and changes nothing else: no particle is lost or
/// duplicated.
pub proof fn lemma_single_mover(g: GridView, x: int, y: int)
    requires
        g.wf(),
        g.is_occupied(x, y),
        forall|a: int, b: int| #[trigger] g.is_occupied(a, b) && (a, b) != (x, y) ==> g.dest(a, b) == (a, b),
    ensures
        g.tick() == g.set(x, y, None).set(g.dest(x, y).0, g.dest(x, y).1, g.get(x, y)),
{
    let d = g.dest(x, y);
    let n = g.tick();
    let goal = g.set(x, y, None).set(d.0, d.1, g.get(x, y));
    lemma_dest_in_bounds(g, x, y);
    assert forall|b: int| 0 <= b < g.height implies #[trigger] n.rows[b] == goal.rows[b] by {
        assert forall|a: int| 0 <= a < g.width implies n.rows[b][a] == goal.rows[b][a] by {
            let t = (a, b);
            if t == d {
                if d == (x, y) {
                    lemma_staying_particle_kept(g, x, y);
                } else {
                    lemma_move_shape(g, (x, y));
                    assert forall|s2: (int, int)| scans_before((x, y), s2) && #[trigger] g.writes(s2, t) implies false by {
                        assert(g.is_occupied(s2.0, s2.1));
                    }
                    lemma_tick_last_writer(g, (x, y), t);
                }
            } else if g.is_occupied(a, b) && t != (x, y) {
                lemma_staying_particle_kept(g, a, b);
            } else {
                assert forall|s: (int, int)| !#[trigger] g.writes(s, t) by {
                    if g.writes(s, t) && s != (x, y) {
                        assert(g.is_occupied(s.0, s.1));
                    }
                }
                lemma_tick_unwritten(g, t);
            }
        }
        assert(n.rows[b] =~= goal.rows[b]);
    }
    assert(n.rows =~= goal.rows);
}

/// Reading a cell right after writing it gives what was written.
pub proof fn lemma_set_then_get(g: GridView, x: int, y: int, m: Option<Material>)
    requires
        g.wf(),
        g.in_bounds(x, y),
    ensures
        g.set(x, y, m).get(x, y) == m,
{
}

} // verus!
