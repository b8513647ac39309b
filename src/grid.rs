use vstd::prelude::*;

use crate::material::{Color, Material, Position};

verus! {

/// A position as a pair of integers.
pub open spec fn spec_pos(p: Position) -> (int, int) {
    (p.x as int, p.y as int)
}

/// `a` comes strictly before `b` in row-major scan order.
pub open spec fn scans_before(a: (int, int), b: (int, int)) -> bool {
    a.1 < b.1 || (a.1 == b.1 && a.0 < b.0)
}

/// The mathematical content of a grid: its size and its rows of cells.
pub struct GridView {
    pub width: nat,
    pub height: nat,
    pub rows: Seq<Seq<Option<Material>>>,
}

impl GridView {
    pub open spec fn wf(self) -> bool {
        &&& self.rows.len() == self.height
        &&& forall|y: int| 0 <= y < self.height ==> (#[trigger] self.rows[y]).len() == self.width
    }

    /// A grid of the given size with every cell empty.
    pub open spec fn blank(width: nat, height: nat) -> GridView {
        GridView { width, height, rows: Seq::new(height, |y: int| Seq::new(width, |x: int| None)) }
    }

    pub open spec fn in_bounds(self, x: int, y: int) -> bool {
        0 <= x < self.width && 0 <= y < self.height
    }

    pub open spec fn get(self, x: int, y: int) -> Option<Material> {
        self.rows[y][x]
    }

    /// `(x, y)` lies in the grid and its cell is empty.
    pub open spec fn is_free(self, x: int, y: int) -> bool {
        self.in_bounds(x, y) && self.get(x, y) is None
    }

    /// `(x, y)` lies in the grid and its cell holds a particle.
    pub open spec fn is_occupied(self, x: int, y: int) -> bool {
        self.in_bounds(x, y) && self.get(x, y) is Some
    }

    /// The grid with the cell at `(x, y)` replaced by `m`.
    pub open spec fn set(self, x: int, y: int, m: Option<Material>) -> GridView {
        GridView { rows: self.rows.update(y, self.rows[y].update(x, m)), ..self }
    }

    /// Where the particle at `(x, y)` decides to go, reading this grid.
    pub open spec fn dest(self, x: int, y: int) -> (int, int) {
        match self.get(x, y) {
            Some(m) => m.target(self, x, y),
            None => (x, y),
        }
    }

    /// The particle at `s` is copied to `t` during a tick.
    pub open spec fn writes(self, s: (int, int), t: (int, int)) -> bool {
        self.is_occupied(s.0, s.1) && self.dest(s.0, s.1) == t
    }

    /// Among the sources scanned before `e`, `s` is the last that writes to `t`.
    pub open spec fn last_writer_before(self, s: (int, int), t: (int, int), e: (int, int)) -> bool {
        &&& scans_before(s, e)
        &&& self.writes(s, t)
        &&& forall|s2: (int, int)|
            scans_before(s, s2) && scans_before(s2, e) ==> !#[trigger] self.writes(s2, t)
    }

    /// The cell `t` of the successor grid once every source before `e` has been
    /// scanned: the particle of the last source that wrote to it, if any.
    pub open spec fn successor_before(self, t: (int, int), e: (int, int)) -> Option<Material> {
        if exists|s: (int, int)| #[trigger] self.last_writer_before(s, t, e) {
            let s = choose|s: (int, int)| #[trigger] self.last_writer_before(s, t, e);
            self.get(s.0, s.1)
        } else {
            None
        }
    }

    /// The cell `t` after one tick: the particle of the last source, in scan
    /// order, whose move targets `t`; empty if no particle moves there.
    pub open spec fn successor(self, t: (int, int)) -> Option<Material> {
        self.successor_before(t, (0, self.height as int))
    }

    /// The colour in which the cell at `(x, y)` is drawn, if it is occupied.
    pub open spec fn color_at(self, x: int, y: int) -> Color {
        match self.get(x, y) {
            Some(m) => m.spec_color(),
            None => Color { r: 0, g: 0, b: 0 },
        }
    }

    /// The grid after one tick.
    pub open spec fn tick(self) -> GridView {
        GridView {
            rows: Seq::new(
                self.height,
                |y: int| Seq::new(self.width, |x: int| self.successor((x, y))),
            ),
            ..self
        }
    }
}

/// Two last writers to one cell over the same scanned prefix are the same source.
pub proof fn lemma_last_writer_unique(g: GridView, s1: (int, int), s2: (int, int), t: (int, int), e: (int, int))
    requires
        g.last_writer_before(s1, t, e),
        g.last_writer_before(s2, t, e),
    ensures
        s1 == s2,
{
    if scans_before(s1, s2) {
        assert(!g.writes(s2, t));
    } else if scans_before(s2, s1) {
        assert(!g.writes(s1, t));
    }
}

/// A particle's move never leaves the grid.
pub proof fn lemma_dest_in_bounds(g: GridView, x: int, y: int)
    requires
        g.is_occupied(x, y),
    ensures
        g.in_bounds(g.dest(x, y).0, g.dest(x, y).1),
{
}

/// Nothing has been written before the scan starts.
proof fn lemma_successor_start(g: GridView, t: (int, int))
    ensures
        g.successor_before(t, (0, 0)) is None,
{
    assert forall|s: (int, int)| !#[trigger] g.last_writer_before(s, t, (0, 0)) by {
        if scans_before(s, (0, 0)) {
            assert(!g.in_bounds(s.0, s.1));
        }
    }
}

/// Scanning past a source that does not write to `t` leaves `t` as it was.
proof fn lemma_successor_skip(g: GridView, t: (int, int), x: int, y: int)
    requires
        !g.writes((x, y), t),
    ensures
        g.successor_before(t, (x + 1, y)) == g.successor_before(t, (x, y)),
{
    let e = (x, y);
    let e1 = (x + 1, y);
    assert forall|s: (int, int)| #[trigger] g.last_writer_before(s, t, e1) <==> g.last_writer_before(s, t, e) by {
        if g.last_writer_before(s, t, e1) {
            assert forall|s2: (int, int)| scans_before(s, s2) && scans_before(s2, e) implies !#[trigger] g.writes(s2, t) by {
                assert(scans_before(s2, e1));
            }
        }
        if g.last_writer_before(s, t, e) {
            assert forall|s2: (int, int)| scans_before(s, s2) && scans_before(s2, e1) implies !#[trigger] g.writes(s2, t) by {
                if s2 != e {
                    assert(scans_before(s2, e));
                }
            }
        }
    }
    if exists|s: (int, int)| #[trigger] g.last_writer_before(s, t, e1) {
        let a = choose|s: (int, int)| #[trigger] g.last_writer_before(s, t, e1);
        assert(g.last_writer_before(a, t, e));
        let b = choose|s: (int, int)| #[trigger] g.last_writer_before(s, t, e);
        lemma_last_writer_unique(g, a, b, t, e);
    } else if exists|s: (int, int)| #[trigger] g.last_writer_before(s, t, e) {
        let b = choose|s: (int, int)| #[trigger] g.last_writer_before(s, t, e);
        assert(g.last_writer_before(b, t, e1));
    }
}

/// Scanning past a source that writes to `t` leaves that source's particle in `t`.
proof fn lemma_successor_write(g: GridView, t: (int, int), x: int, y: int)
    requires
        g.writes((x, y), t),
    ensures
        g.successor_before(t, (x + 1, y)) == g.get(x, y),
{
    let e1 = (x + 1, y);
    assert(g.last_writer_before((x, y), t, e1));
    let a = choose|s: (int, int)| #[trigger] g.last_writer_before(s, t, e1);
    lemma_last_writer_unique(g, a, (x, y), t, e1);
}

/// The end of a row and the start of the next one bound the same sources.
proof fn lemma_successor_next_row(g: GridView, t: (int, int), y: int)
    ensures
        g.successor_before(t, (g.width as int, y)) == g.successor_before(t, (0, y + 1)),
{
    let e = (g.width as int, y);
    let e1 = (0, y + 1);
    assert forall|s: (int, int)| #[trigger] g.last_writer_before(s, t, e1) <==> g.last_writer_before(s, t, e) by {
        if g.last_writer_before(s, t, e1) {
            assert forall|s2: (int, int)| scans_before(s, s2) && scans_before(s2, e) implies !#[trigger] g.writes(s2, t) by {
                if g.writes(s2, t) {
                    assert(scans_before(s2, e1));
                }
            }
        }
        if g.last_writer_before(s, t, e) {
            assert forall|s2: (int, int)| scans_before(s, s2) && scans_before(s2, e1) implies !#[trigger] g.writes(s2, t) by {
                if g.writes(s2, t) {
                    assert(scans_before(s2, e));
                }
            }
        }
    }
    if exists|s: (int, int)| #[trigger] g.last_writer_before(s, t, e1) {
        let a = choose|s: (int, int)| #[trigger] g.last_writer_before(s, t, e1);
        assert(g.last_writer_before(a, t, e));
        let b = choose|s: (int, int)| #[trigger] g.last_writer_before(s, t, e);
        lemma_last_writer_unique(g, a, b, t, e);
    } else if exists|s: (int, int)| #[trigger] g.last_writer_before(s, t, e) {
        let b = choose|s: (int, int)| #[trigger] g.last_writer_before(s, t, e);
        assert(g.last_writer_before(b, t, e1));
    }
}

/// A fixed-size grid of cells, stored row-major.
pub struct Grid {
    data: Vec<Option<Material>>,
    width: usize,
    height: usize,
}

proof fn lemma_row_end(w: int, h: int, y: int)
    requires
        0 <= w,
        0 <= y < h,
    ensures
        0 <= y * w,
        y * w + w <= w * h,
{
    assert(0 <= y * w) by (nonlinear_arith)
        requires
            0 <= y,
            0 <= w,
    ;
    assert(y * w + w <= w * h) by (nonlinear_arith)
        requires
            y + 1 <= h,
            0 <= w,
    ;
}

proof fn lemma_rows_apart(w: int, y1: int, y2: int)
    requires
        0 <= w,
        y1 < y2,
    ensures
        y1 * w + w <= y2 * w,
{
    assert(y1 * w + w <= y2 * w) by (nonlinear_arith)
        requires
            y1 + 1 <= y2,
            0 <= w,
    ;
}

proof fn lemma_cell_index(w: int, h: int, x: int, y: int)
    requires
        0 <= x < w,
        0 <= y < h,
    ensures
        0 <= y * w,
        y * w + x < w * h,
        y * w + w <= w * h,
{
    lemma_row_end(w, h, y);
}

impl View for Grid {
    type V = GridView;

    closed spec fn view(&self) -> GridView {
        let w = self.width as int;
        GridView {
            width: self.width as nat,
            height: self.height as nat,
            rows: Seq::new(self.height as nat, |y: int| self.data@.subrange(y * w, y * w + w)),
        }
    }
}

impl Grid {
    /// The cell vector holds exactly `width * height` cells.
    pub closed spec fn wf(&self) -> bool {
        &&& self.data@.len() == self.width * self.height
        &&& self.width * self.height <= usize::MAX
    }

    /// A well-formed grid has a well-formed view.
    pub proof fn lemma_view_wf(&self)
        requires
            self.wf(),
        ensures
            self@.wf(),
    {
        self.lemma_view();
    }

    proof fn lemma_view(&self)
        requires
            self.wf(),
        ensures
            self@.wf(),
            forall|x: int, y: int|
                0 <= x < self.width && 0 <= y < self.height ==> #[trigger] self@.get(x, y)
                    == self.data@[y * self.width + x] && y * self.width + x < self.data@.len(),
    {
        assert forall|y: int| 0 <= y < self.height implies (#[trigger] self@.rows[y]).len()
            == self.width by {
            lemma_row_end(self.width as int, self.height as int, y);
        }
        assert forall|x: int, y: int| 0 <= x < self.width && 0 <= y < self.height implies #[trigger] self@.get(x, y)
                == self.data@[y * self.width + x] && y * self.width + x < self.data@.len() by {
            lemma_cell_index(self.width as int, self.height as int, x, y);
        }
    }

    /// A `width` by `height` grid with every cell empty.
    pub fn new(width: usize, height: usize) -> (r: Grid)
        requires
            width * height <= usize::MAX,
        ensures
            r.wf(),
            r@.wf(),
            r@ == GridView::blank(width as nat, height as nat),
    {
        let n = width * height;
        let mut data: Vec<Option<Material>> = Vec::new();
        let mut i: usize = 0;
        while i < n
            invariant
                i <= n,
                data@.len() == i,
                forall|j: int| 0 <= j < i ==> data@[j] is None,
            decreases n - i,
        {
            data.push(None);
            i += 1;
        }
        let r = Grid { data, width, height };
        proof {
            r.lemma_view();
            let b = GridView::blank(width as nat, height as nat);
            assert forall|y: int| 0 <= y < height implies #[trigger] r@.rows[y] == b.rows[y] by {
                assert forall|x: int| 0 <= x < width implies r@.rows[y][x] == b.rows[y][x] by {
                    assert(r@.get(x, y) == data@[y * width + x]);
                }
                assert(r@.rows[y] =~= b.rows[y]);
            }
            assert(r@.rows =~~= GridView::blank(width as nat, height as nat).rows);
        }
        r
    }

    pub fn width(&self) -> (r: usize)
        ensures
            r == self@.width,
    {
        self.width
    }

    pub fn height(&self) -> (r: usize)
        ensures
            r == self@.height,
    {
        self.height
    }

    /// The content of the cell at `pos`.
    pub fn get(&self, pos: Position) -> (r: Option<Material>)
        requires
            self.wf(),
            self@.in_bounds(pos.x as int, pos.y as int),
        ensures
            r == self@.get(pos.x as int, pos.y as int),
    {
        proof {
            self.lemma_view();
            lemma_cell_index(self.width as int, self.height as int, pos.x as int, pos.y as int);
        }
        self.data[pos.y * self.width + pos.x]
    }

    /// Overwrites the cell at `pos` with `m`, discarding what it held.
    pub fn set(&mut self, pos: Position, m: Option<Material>)
        requires
            old(self).wf(),
            old(self)@.in_bounds(pos.x as int, pos.y as int),
        ensures
            final(self).wf(),
            final(self)@.wf(),
            final(self)@ == old(self)@.set(pos.x as int, pos.y as int, m),
            final(self)@.width == old(self)@.width,
            final(self)@.height == old(self)@.height,
            final(self)@.get(pos.x as int, pos.y as int) == m,
            forall|x: int, y: int|
                old(self)@.in_bounds(x, y) && (x, y) != (pos.x as int, pos.y as int) ==> #[trigger] final(self)@.get(x, y)
                    == old(self)@.get(x, y),
    {
        proof {
            self.lemma_view();
            lemma_cell_index(self.width as int, self.height as int, pos.x as int, pos.y as int);
        }
        let i = pos.y * self.width + pos.x;
        self.data.set(i, m);
        proof {
            let w = self.width as int;
            let y0 = pos.y as int;
            let goal = old(self)@.set(pos.x as int, y0, m);
            assert forall|y: int| 0 <= y < self.height implies #[trigger] self@.rows[y]
                == goal.rows[y] by {
                lemma_row_end(w, self.height as int, y);
                if y < y0 {
                    lemma_rows_apart(w, y, y0);
                } else if y > y0 {
                    lemma_rows_apart(w, y0, y);
                }
                assert(self@.rows[y] =~= goal.rows[y]);
            }
            assert(self@.rows =~= goal.rows);
        }
    }
    /// The successor grid: every particle of this grid copied to the position
    /// it chooses, sources scanned in row-major order, the later of two
    /// particles that choose the same cell overwriting the earlier.
    fn successor_grid(&self) -> (r: Grid)
        requires
            self.wf(),
        ensures
            r.wf(),
            r@.wf(),
            r@ == self@.tick(),
    {
        let w = self.width;
        let h = self.height;
        let ghost g = self@;
        proof {
            self.lemma_view();
        }
        let mut next = Grid::new(w, h);
        proof {
            assert forall|tx: int, ty: int| next@.in_bounds(tx, ty) implies #[trigger] next@.get(tx, ty)
                == g.successor_before((tx, ty), (0, 0)) by {
                lemma_successor_start(g, (tx, ty));
            }
        }
        let mut y: usize = 0;
        while y < h
            invariant
                self.wf(),
                g == self@,
                g.wf(),
                w == g.width,
                h == g.height,
                y <= h,
                next.wf(),
                next@.wf(),
                next@.width == w,
                next@.height == h,
                forall|tx: int, ty: int| next@.in_bounds(tx, ty) ==> #[trigger] next@.get(tx, ty)
                    == g.successor_before((tx, ty), (0, y as int)),
            decreases h - y,
        {
            let mut x: usize = 0;
            while x < w
                invariant
                    self.wf(),
                    g == self@,
                    g.wf(),
                    w == g.width,
                    h == g.height,
                    y < h,
                    x <= w,
                    next.wf(),
                    next@.wf(),
                    next@.width == w,
                    next@.height == h,
                    forall|tx: int, ty: int| next@.in_bounds(tx, ty) ==> #[trigger] next@.get(tx, ty)
                        == g.successor_before((tx, ty), (x as int, y as int)),
                decreases w - x,
            {
                let pos = Position::new(x, y);
                let ghost before = next@;
                match self.get(pos) {
                    Some(m) => {
                        let p = m.next_position(self, pos);
                        proof {
                            lemma_dest_in_bounds(g, x as int, y as int);
                        }
                        next.set(p, Some(m));
                        proof {
                            let d = (p.x as int, p.y as int);
                            assert forall|tx: int, ty: int| next@.in_bounds(tx, ty) implies #[trigger] next@.get(tx, ty)
                                == g.successor_before((tx, ty), (x + 1, y as int)) by {
                                if (tx, ty) == d {
                                    lemma_successor_write(g, d, x as int, y as int);
                                } else {
                                    assert(next@.get(tx, ty) == before.get(tx, ty));
                                    lemma_successor_skip(g, (tx, ty), x as int, y as int);
                                }
                            }
                        }
                    },
                    None => {
                        proof {
                            assert forall|tx: int, ty: int| next@.in_bounds(tx, ty) implies #[trigger] next@.get(tx, ty)
                                == g.successor_before((tx, ty), (x + 1, y as int)) by {
                                lemma_successor_skip(g, (tx, ty), x as int, y as int);
                            }
                        }
                    },
                }
                x += 1;
            }
            proof {
                assert forall|tx: int, ty: int| next@.in_bounds(tx, ty) implies #[trigger] next@.get(tx, ty)
                    == g.successor_before((tx, ty), (0, y + 1)) by {
                    lemma_successor_next_row(g, (tx, ty), y as int);
                }
            }
            y += 1;
        }
        proof {
            let goal = g.tick();
            assert forall|ty: int| 0 <= ty < h implies #[trigger] next@.rows[ty] == goal.rows[ty] by {
                assert forall|tx: int| 0 <= tx < w implies next@.rows[ty][tx] == goal.rows[ty][tx] by {
                    assert(next@.get(tx, ty) == g.successor_before((tx, ty), (0, h as int)));
                }
                assert(next@.rows[ty] =~= goal.rows[ty]);
            }
            assert(next@.rows =~= goal.rows);
        }
        next
    }

    /// Every occupied cell with the colour of its particle, in row-major order.
    pub fn draw(&self) -> (r: Vec<(Position, Color)>)
        requires
            self.wf(),
        ensures
            forall|k: int|
                0 <= k < r@.len() ==> {
                    let (p, c) = #[trigger] r@[k];
                    self@.is_occupied(p.x as int, p.y as int) && c == self@.color_at(p.x as int, p.y as int)
                },
            forall|k1: int, k2: int|
                0 <= k1 < k2 < r@.len() ==> scans_before(spec_pos(#[trigger] r@[k1].0), spec_pos(#[trigger] r@[k2].0)),
            forall|x: int, y: int|
                #[trigger] self@.is_occupied(x, y) ==> exists|k: int| 0 <= k < r@.len() && spec_pos(#[trigger] r@[k].0) == (x, y),
    {
        let w = self.width;
        let h = self.height;
        let ghost g = self@;
        let mut r: Vec<(Position, Color)> = Vec::new();
        let mut y: usize = 0;
        while y < h
            invariant
                self.wf(),
                g == self@,
                w == g.width,
                h == g.height,
                y <= h,
                forall|k: int|
                    0 <= k < r@.len() ==> {
                        let (p, c) = #[trigger] r@[k];
                        g.is_occupied(p.x as int, p.y as int) && c == g.color_at(p.x as int, p.y as int)
                            && scans_before(spec_pos(p), (0, y as int))
                    },
                forall|k1: int, k2: int|
                    0 <= k1 < k2 < r@.len() ==> scans_before(spec_pos(#[trigger] r@[k1].0), spec_pos(#[trigger] r@[k2].0)),
                forall|x: int, y2: int|
                    #[trigger] g.is_occupied(x, y2) && y2 < y ==> exists|k: int| 0 <= k < r@.len() && spec_pos(#[trigger] r@[k].0) == (x, y2),
            decreases h - y,
        {
            let mut x: usize = 0;
            while x < w
                invariant
                    self.wf(),
                    g == self@,
                    w == g.width,
                    h == g.height,
                    y < h,
                    x <= w,
                    forall|k: int|
                        0 <= k < r@.len() ==> {
                            let (p, c) = #[trigger] r@[k];
                            g.is_occupied(p.x as int, p.y as int) && c == g.color_at(p.x as int, p.y as int)
                                && scans_before(spec_pos(p), (x as int, y as int))
                        },
                    forall|k1: int, k2: int|
                        0 <= k1 < k2 < r@.len() ==> scans_before(spec_pos(#[trigger] r@[k1].0), spec_pos(#[trigger] r@[k2].0)),
                    forall|x2: int, y2: int|
                        #[trigger] g.is_occupied(x2, y2) && scans_before((x2, y2), (x as int, y as int)) ==> exists|k: int|
                            0 <= k < r@.len() && spec_pos(#[trigger] r@[k].0) == (x2, y2),
                decreases w - x,
            {
                let pos = Position::new(x, y);
                match self.get(pos) {
                    Some(m) => {
                        let ghost old_r = r@;
                        r.push((pos, m.color()));
                        proof {
                            assert(spec_pos(r@[old_r.len() as int].0) == (x as int, y as int));
                            assert forall|x2: int, y2: int|
                                #[trigger] g.is_occupied(x2, y2) && scans_before((x2, y2), (x + 1, y as int)) implies exists|k: int|
                                    0 <= k < r@.len() && spec_pos(#[trigger] r@[k].0) == (x2, y2) by {
                                if (x2, y2) != (x as int, y as int) {
                                    let k = choose|k: int| 0 <= k < old_r.len() && spec_pos(#[trigger] old_r[k].0) == (x2, y2);
                                    assert(r@[k] == old_r[k]);
                                }
                            }
                        }
                    },
                    None => {},
                }
                x += 1;
            }
            y += 1;
        }
        r
    }

    /// Advances the simulation by one tick: every particle moves to the
    /// position it chooses on the current grid; where two choose the same
    /// cell, the later in row-major scan order wins.
    pub fn update(&mut self)
        requires
            old(self).wf(),
        ensures
            final(self).wf(),
            final(self)@.wf(),
            final(self)@ == old(self)@.tick(),
    {
        *self = self.successor_grid();
    }
}

} // verus!
