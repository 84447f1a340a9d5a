//! The Game of Life grid: toroidal cell lookup, neighbour counting,
//! partial (per-region) steps and xorshift seeding.

use vstd::prelude::*;

verus! {

/// Percentage of cells alive in a freshly seeded grid.
pub const INITIAL_DENSITY_PERCENT: u64 = 30;

/// Percentage of dead cells revived by a respawn.
pub const RESPAWN_FILL_PERCENT: u64 = 25;

/// Mathematical model of a grid: its dimensions and row-major cells.
pub struct GridModel {
    pub width: nat,
    pub height: nat,
    pub cells: Seq<bool>,
}

impl GridModel {
    /// Cell at in-range coordinates.
    pub open spec fn at(self, x: int, y: int) -> bool {
        self.cells[y * self.width + x]
    }

    /// Cell at arbitrary coordinates, wrapped around both edges.
    pub open spec fn wrapped(self, x: int, y: int) -> bool {
        self.at(x % (self.width as int), y % (self.height as int))
    }

    /// Number of live cells among the eight toroidal neighbours of `(x, y)`.
    pub open spec fn neighbors(self, x: int, y: int) -> int {
        b2i(self.wrapped(x - 1, y - 1)) + b2i(self.wrapped(x, y - 1)) + b2i(
            self.wrapped(x + 1, y - 1),
        ) + b2i(self.wrapped(x - 1, y)) + b2i(self.wrapped(x + 1, y)) + b2i(
            self.wrapped(x - 1, y + 1),
        ) + b2i(self.wrapped(x, y + 1)) + b2i(self.wrapped(x + 1, y + 1))
    }
}

pub open spec fn b2i(b: bool) -> int {
    if b {
        1
    } else {
        0
    }
}

/// Conway's rule (B3/S23) for one cell.
pub open spec fn life_rule(alive: bool, n: int) -> bool {
    if alive {
        n == 2 || n == 3
    } else {
        n == 3
    }
}

/// One xorshift64 step (shifts 13, 7, 17).
pub open spec fn xorshift(s: u64) -> u64 {
    let a = s ^ (s << 13u64);
    let b = a ^ (a >> 7u64);
    b ^ (b << 17u64)
}

/// The generator state after `n` xorshift steps from `seed`.
pub open spec fn xorshift_iter(seed: u64, n: nat) -> u64
    decreases n,
{
    if n == 0 {
        seed
    } else {
        xorshift(xorshift_iter(seed, (n - 1) as nat))
    }
}

/// Whether a generator state draws a live cell at the given percentage.
pub open spec fn draws_alive(state: u64, percent: u64) -> bool {
    state % 100 < percent
}

/// Result of reviving dead cells: each dead cell advances the generator once
/// and comes alive when the new state draws below `percent`; live cells stay
/// alive and do not advance it.
pub open spec fn reseeded(cells: Seq<bool>, state: u64, percent: u64) -> Seq<bool>
    decreases cells.len(),
{
    if cells.len() == 0 {
        Seq::empty()
    } else if cells[0] {
        seq![true] + reseeded(cells.drop_first(), state, percent)
    } else {
        let next = xorshift(state);
        seq![draws_alive(next, percent)] + reseeded(cells.drop_first(), next, percent)
    }
}

/// Number of live cells in a sequence.
pub open spec fn count_alive(cells: Seq<bool>) -> nat
    decreases cells.len(),
{
    if cells.len() == 0 {
        0
    } else {
        count_alive(cells.drop_last()) + if cells.last() {
            1nat
        } else {
            0nat
        }
    }
}

/// What a partial step computes for cell index `i`.
pub open spec fn stepped_cell(
    g: GridModel,
    cell_bins: Seq<usize>,
    bin_fired: Seq<bool>,
    i: int,
) -> bool {
    let x = i % (g.width as int);
    let y = i / (g.width as int);
    if bin_fired[cell_bins[i] as int] {
        life_rule(g.cells[i], g.neighbors(x, y))
    } else {
        g.cells[i]
    }
}

pub proof fn lemma_index_bounds(x: int, y: int, w: int, h: int)
    requires
        0 <= x < w,
        0 <= y < h,
    ensures
        0 <= y * w + x < w * h,
        (y * w + x) % w == x,
        (y * w + x) / w == y,
{
    assert(0 <= y * w) by (nonlinear_arith)
        requires
            0 <= y,
            0 <= x < w,
    ;
    assert(y * w + x < w * h) by (nonlinear_arith)
        requires
            0 <= x < w,
            0 <= y < h,
    ;
    vstd::arithmetic::div_mod::lemma_fundamental_div_mod_converse(y * w + x, w, y, x);
}

pub proof fn lemma_index_split(i: int, w: int, h: int)
    requires
        0 <= i < w * h,
        0 < w,
    ensures
        0 <= i % w < w,
        0 <= i / w < h,
        (i / w) * w + i % w == i,
{
    vstd::arithmetic::div_mod::lemma_fundamental_div_mod(i, w);
    assert((i / w) * w == w * (i / w)) by (nonlinear_arith);
    assert(0 <= i / w) by (nonlinear_arith)
        requires
            0 <= i,
            0 < w,
    ;
    if i / w >= h {
        assert((i / w) * w >= h * w) by (nonlinear_arith)
            requires
                i / w >= h,
                0 < w,
        ;
        assert(h * w == w * h) by (nonlinear_arith);
    }
}

/// A width x height field of cells, stored row-major.
pub struct Grid {
    width: usize,
    height: usize,
    cells: Vec<bool>,
}

impl View for Grid {
    type V = GridModel;

    closed spec fn view(&self) -> GridModel {
        GridModel { width: self.width as nat, height: self.height as nat, cells: self.cells@ }
    }
}

/// Dimensions a grid may have: non-empty, addressable with `i32` coordinates,
/// and with a cell count that fits in memory.
pub open spec fn valid_dims(width: int, height: int) -> bool {
    &&& 0 < width <= i32::MAX
    &&& 0 < height <= i32::MAX
    &&& width * height <= usize::MAX
}

impl Grid {
    #[verifier::type_invariant]
    closed spec fn inv(self) -> bool {
        &&& valid_dims(self.width as int, self.height as int)
        &&& self.cells@.len() == self.width * self.height
    }

    /// Builds a grid from explicit cells; `None` when the dimensions are
    /// invalid or the cell count does not match them.
    pub fn from_cells(width: usize, height: usize, cells: Vec<bool>) -> (r: Option<Grid>)
        ensures
            r is Some <==> (valid_dims(width as int, height as int) && cells@.len() == width
                * height),
            r matches Some(g) ==> g@ == (GridModel {
                width: width as nat,
                height: height as nat,
                cells: cells@,
            }),
    {
        if width == 0 || height == 0 || width > i32::MAX as usize || height > i32::MAX as usize {
            return None;
        }
        match width.checked_mul(height) {
            None => None,
            Some(n) => {
                if cells.len() == n {
                    Some(Grid { width, height, cells })
                } else {
                    None
                }
            },
        }
    }

    /// Fills a grid from an xorshift64 stream started at `seed`: cell `i` is
    /// alive when the generator's state after `i + 1` steps, modulo 100, is
    /// below the initial density percentage.
    pub fn new_random(width: usize, height: usize, seed: u64) -> (g: Grid)
        requires
            valid_dims(width as int, height as int),
        ensures
            g@.width == width,
            g@.height == height,
            g@.cells.len() == width * height,
            forall|i: int|
                0 <= i < width * height ==> #[trigger] g@.cells[i] == draws_alive(
                    xorshift_iter(seed, (i + 1) as nat),
                    INITIAL_DENSITY_PERCENT,
                ),
    {
        let n = width * height;
        let mut cells: Vec<bool> = Vec::new();
        let mut state = seed;
        let mut i: usize = 0;
        while i < n
            invariant
                i <= n,
                n == width * height,
                cells@.len() == i,
                state == xorshift_iter(seed, i as nat),
                forall|j: int|
                    0 <= j < i ==> #[trigger] cells@[j] == draws_alive(
                        xorshift_iter(seed, (j + 1) as nat),
                        INITIAL_DENSITY_PERCENT,
                    ),
            decreases n - i,
        {
            state = xorshift_step(state);
            cells.push(state % 100 < INITIAL_DENSITY_PERCENT);
            i = i + 1;
        }
        Grid { width, height, cells }
    }

    pub fn width(&self) -> (w: usize)
        ensures
            w == self@.width,
            valid_dims(self@.width as int, self@.height as int),
            self@.cells.len() == self@.width * self@.height,
    {
        proof {
            use_type_invariant(self);
        }
        self.width
    }

    pub fn height(&self) -> (h: usize)
        ensures
            h == self@.height,
            valid_dims(self@.width as int, self@.height as int),
            self@.cells.len() == self@.width * self@.height,
    {
        proof {
            use_type_invariant(self);
        }
        self.height
    }

    pub fn cells(&self) -> (c: &Vec<bool>)
        ensures
            c@ == self@.cells,
    {
        &self.cells
    }

    /// Number of live cells (the numerator of the grid's density).
    pub fn alive_count(&self) -> (n: usize)
        ensures
            n == count_alive(self@.cells),
    {
        proof {
            use_type_invariant(self);
        }
        let mut n: usize = 0;
        let mut i: usize = 0;
        while i < self.cells.len()
            invariant
                i <= self.cells@.len(),
                n == count_alive(self.cells@.take(i as int)),
                n <= i,
            decreases self.cells@.len() - i,
        {
            assert(self.cells@.take(i + 1).drop_last() =~= self.cells@.take(i as int));
            if self.cells[i] {
                n = n + 1;
            }
            i = i + 1;
        }
        assert(self.cells@.take(i as int) =~= self.cells@);
        n
    }

    /// Revives dead cells from an xorshift64 stream started at `seed`; each
    /// dead cell draws once, and comes alive below `fill_percent`.
    pub fn seed_random(&mut self, fill_percent: u64, seed: u64)
        ensures
            final(self)@.width == old(self)@.width,
            final(self)@.height == old(self)@.height,
            final(self)@.cells == reseeded(old(self)@.cells, seed, fill_percent),
    {
        proof {
            use_type_invariant(&*self);
        }
        let ghost orig = self.cells@;
        let mut out: Vec<bool> = Vec::new();
        let mut state = seed;
        let mut i: usize = 0;
        let n = self.cells.len();
        assert(orig.skip(0) =~= orig);
        assert(out@ + reseeded(orig, seed, fill_percent) =~= reseeded(orig, seed, fill_percent));
        while i < n
            invariant
                n == orig.len(),
                orig == self.cells@,
                i <= n,
                out@.len() == i,
                out@ + reseeded(orig.skip(i as int), state, fill_percent) == reseeded(
                    orig,
                    seed,
                    fill_percent,
                ),
            decreases n - i,
        {
            let ghost rest = orig.skip(i as int);
            assert(rest.drop_first() =~= orig.skip(i + 1));
            assert(rest[0] == orig[i as int]);
            let ghost old_out = out@;
            let ghost old_state = state;
            if self.cells[i] {
                out.push(true);
            } else {
                state = xorshift_step(state);
                out.push(state % 100 < fill_percent);
            }
            assert(out@ + reseeded(orig.skip(i + 1), state, fill_percent) =~= old_out
                + reseeded(rest, old_state, fill_percent));
            i = i + 1;
        }
        assert(orig.skip(n as int) =~= Seq::<bool>::empty());
        assert(out@ + Seq::<bool>::empty() =~= out@);
        self.cells = out;
    }

    /// Cell at in-range coordinates.
    pub fn alive(&self, x: usize, y: usize) -> (b: bool)
        requires
            x < self@.width,
            y < self@.height,
        ensures
            b == self@.at(x as int, y as int),
    {
        proof {
            use_type_invariant(self);
            lemma_index_bounds(x as int, y as int, self.width as int, self.height as int);
        }
        self.cells[y * self.width + x]
    }

    /// Cell at any coordinates, wrapping around the edges (a torus).
    pub fn get(&self, x: i32, y: i32) -> (b: bool)
        ensures
            b == self@.wrapped(x as int, y as int),
    {
        proof {
            use_type_invariant(self);
        }
        let w = self.width as i32;
        let h = self.height as i32;
        let wx = match x.checked_rem_euclid(w) {
            Some(r) => r,
            None => 0,
        };
        let wy = match y.checked_rem_euclid(h) {
            Some(r) => r,
            None => 0,
        };
        proof {
            lemma_index_bounds(wx as int, wy as int, self.width as int, self.height as int);
        }
        self.cells[wy as usize * self.width + wx as usize]
    }

    /// Number of live cells among the eight toroidal neighbours.
    pub fn neighbor_count(&self, x: usize, y: usize) -> (n: u8)
        requires
            x < self@.width,
            y < self@.height,
        ensures
            n == self@.neighbors(x as int, y as int),
    {
        proof {
            use_type_invariant(self);
        }
        let ix = x as i32;
        let iy = y as i32;
        let mut count: u8 = 0;
        if self.get(ix - 1, iy - 1) {
            count = count + 1;
        }
        if self.get(ix, iy - 1) {
            count = count + 1;
        }
        if self.get(ix + 1, iy - 1) {
            count = count + 1;
        }
        if self.get(ix - 1, iy) {
            count = count + 1;
        }
        if self.get(ix + 1, iy) {
            count = count + 1;
        }
        if self.get(ix - 1, iy + 1) {
            count = count + 1;
        }
        if self.get(ix, iy + 1) {
            count = count + 1;
        }
        if self.get(ix + 1, iy + 1) {
            count = count + 1;
        }
        count
    }

    /// Advances only the cells whose frequency bin fired, evaluating the rules
    /// against this (pre-step) grid; every other cell keeps its state.
    pub fn partial_step(&self, cell_bins: &[usize], bin_fired: &[bool]) -> (next: Grid)
        requires
            cell_bins@.len() >= self@.width * self@.height,
            forall|i: int|
                0 <= i < self@.width * self@.height ==> (#[trigger] cell_bins@[i]) < bin_fired@.len(),
        ensures
            next@.width == self@.width,
            next@.height == self@.height,
            next@.cells.len() == self@.cells.len(),
            forall|i: int|
                0 <= i < self@.cells.len() ==> #[trigger] next@.cells[i] == stepped_cell(
                    self@,
                    cell_bins@,
                    bin_fired@,
                    i,
                ),
            forall|i: int|
                0 <= i < self@.cells.len() ==> #[trigger] next@.cells[i] == if bin_fired@[cell_bins@[i] as int] {
                    conway_next(self@, i)
                } else {
                    self@.cells[i]
                },
    {
        proof {
            use_type_invariant(self);
        }
        let w = self.width;
        let h = self.height;
        let mut next = self.cells.clone();
        let mut y: usize = 0;
        while y < h
            invariant
                w == self@.width,
                h == self@.height,
                valid_dims(w as int, h as int),
                self@.cells.len() == w * h,
                cell_bins@.len() >= w * h,
                forall|i: int| 0 <= i < w * h ==> (#[trigger] cell_bins@[i]) < bin_fired@.len(),
                y <= h,
                next@.len() == w * h,
                forall|i: int|
                    0 <= i < y * w ==> #[trigger] next@[i] == stepped_cell(
                        self@,
                        cell_bins@,
                        bin_fired@,
                        i,
                    ),
                forall|i: int| y * w <= i < w * h ==> #[trigger] next@[i] == self@.cells[i],
            decreases h - y,
        {
            let mut x: usize = 0;
            while x < w
                invariant
                    w == self@.width,
                    h == self@.height,
                    valid_dims(w as int, h as int),
                    self@.cells.len() == w * h,
                    cell_bins@.len() >= w * h,
                    forall|i: int| 0 <= i < w * h ==> (#[trigger] cell_bins@[i]) < bin_fired@.len(),
                    y < h,
                    x <= w,
                    next@.len() == w * h,
                    forall|i: int|
                        0 <= i < y * w + x ==> #[trigger] next@[i] == stepped_cell(
                            self@,
                            cell_bins@,
                            bin_fired@,
                            i,
                        ),
                    forall|i: int| y * w + x <= i < w * h ==> #[trigger] next@[i] == self@.cells[i],
                decreases w - x,
            {
                proof {
                    lemma_index_bounds(x as int, y as int, w as int, h as int);
                }
                let idx = y * w + x;
                if bin_fired[cell_bins[idx]] {
                    let n = self.neighbor_count(x, y);
                    let v = if self.alive(x, y) {
                        n == 2 || n == 3
                    } else {
                        n == 3
                    };
                    next.set(idx, v);
                }
                x = x + 1;
            }
            proof {
                assert((y + 1) * w == y * w + w) by (nonlinear_arith);
            }
            y = y + 1;
        }
        proof {
            assert(y * w == w * h) by (nonlinear_arith)
                requires
                    y == h,
            ;
        }
        Grid { width: w, height: h, cells: next }
    }
}

/// What one simulation tick computes: on a global beat every cell steps,
/// otherwise only the cells of the bins that fired (no step at all when
/// none fired).
pub open spec fn ticked(g: GridModel, cell_bins: Seq<usize>, beat: bool, bin_fired: Seq<bool>) -> Seq<bool> {
    if beat {
        Seq::new(g.cells.len(), |i: int| life_rule(g.cells[i], g.neighbors(i % (g.width as int), i / (g.width as int))))
    } else {
        Seq::new(g.cells.len(), |i: int| stepped_cell(g, cell_bins, bin_fired, i))
    }
}

impl Grid {
    /// One simulation tick: a global beat steps every cell, otherwise the
    /// cells whose frequency bin fired step; with no onset the grid is
    /// returned unchanged.
    pub fn tick(&self, cell_bins: &[usize], beat: bool, bin_fired: &[bool]) -> (next: Grid)
        requires
            cell_bins@.len() >= self@.width * self@.height,
            forall|i: int|
                0 <= i < self@.width * self@.height ==> (#[trigger] cell_bins@[i]) < bin_fired@.len(),
        ensures
            next@.width == self@.width,
            next@.height == self@.height,
            next@.cells == ticked(self@, cell_bins@, beat, bin_fired@),
            next@.cells.len() == self@.cells.len(),
            forall|i: int|
                0 <= i < self@.cells.len() ==> #[trigger] next@.cells[i] == if beat || bin_fired@[cell_bins@[i] as int] {
                    conway_next(self@, i)
                } else {
                    self@.cells[i]
                },
    {
        proof {
            lemma_tick_steps_fired_bands(self@, cell_bins@, beat, bin_fired@);
        }
        let _ = self.width();
        if beat {
            let n = bin_fired.len();
            let mut all: Vec<bool> = Vec::new();
            while all.len() < n
                invariant
                    all@.len() <= n,
                    n == bin_fired@.len(),
                    forall|k: int| 0 <= k < all@.len() ==> #[trigger] all@[k],
                decreases n - all@.len(),
            {
                all.push(true);
            }
            let next = self.partial_step(cell_bins, all.as_slice());
            assert(next@.cells =~= ticked(self@, cell_bins@, beat, bin_fired@));
            return next;
        }
        let mut any = false;
        let mut k: usize = 0;
        while k < bin_fired.len()
            invariant
                k <= bin_fired@.len(),
                any <==> exists|j: int| 0 <= j < k && #[trigger] bin_fired@[j],
            decreases bin_fired@.len() - k,
        {
            if bin_fired[k] {
                any = true;
            }
            k = k + 1;
        }
        if any {
            let next = self.partial_step(cell_bins, bin_fired);
            assert(next@.cells =~= ticked(self@, cell_bins@, beat, bin_fired@));
            next
        } else {
            let next = Grid { width: self.width, height: self.height, cells: self.cells.clone() };
            assert(next@.cells =~= ticked(self@, cell_bins@, beat, bin_fired@)) by {
                assert forall|i: int| 0 <= i < self@.cells.len() implies #[trigger] next@.cells[i]
                    == stepped_cell(self@, cell_bins@, bin_fired@, i) by {
                    lemma_index_split(i, self.width as int, self.height as int);
                    assert(!bin_fired@[cell_bins@[i] as int]);
                }
            }
            next
        }
    }
}

/// The next state of cell `i` under Conway's rule: a live cell survives with
/// two or three live neighbours (wrapping around the edges), a dead one is
/// born with exactly three.
pub open spec fn conway_next(g: GridModel, i: int) -> bool {
    let x = i % (g.width as int);
    let y = i / (g.width as int);
    let n = b2i(g.wrapped(x - 1, y - 1)) + b2i(g.wrapped(x, y - 1)) + b2i(g.wrapped(x + 1, y - 1))
        + b2i(g.wrapped(x - 1, y)) + b2i(g.wrapped(x + 1, y)) + b2i(g.wrapped(x - 1, y + 1))
        + b2i(g.wrapped(x, y + 1)) + b2i(g.wrapped(x + 1, y + 1));
    if g.cells[i] {
        n == 2 || n == 3
    } else {
        n == 3
    }
}

/// A tick steps the music's cells: on a beat every cell follows Conway's
/// rule; without one, exactly the cells whose band fired follow it and every
/// other cell keeps its state. The grid keeps its size.
pub proof fn lemma_tick_steps_fired_bands(
    g: GridModel,
    cell_bins: Seq<usize>,
    beat: bool,
    bin_fired: Seq<bool>,
)
    ensures
        ticked(g, cell_bins, beat, bin_fired).len() == g.cells.len(),
        forall|i: int|
            0 <= i < g.cells.len() ==> #[trigger] ticked(g, cell_bins, beat, bin_fired)[i] == if beat
                || bin_fired[cell_bins[i] as int] {
                conway_next(g, i)
            } else {
                g.cells[i]
            },
{
}

/// Reading the torus is periodic in both directions.
pub proof fn lemma_wrap_periodic(g: GridModel, x: int, y: int)
    requires
        g.width > 0,
        g.height > 0,
    ensures
        g.wrapped(x + g.width, y) == g.wrapped(x, y),
        g.wrapped(x, y + g.height) == g.wrapped(x, y),
{
    vstd::arithmetic::div_mod::lemma_mod_add_multiples_vanish(x, g.width as int);
    vstd::arithmetic::div_mod::lemma_mod_add_multiples_vanish(y, g.height as int);
}

/// With no live cell, any step leaves every cell dead.
pub proof fn lemma_empty_stays_empty(
    g: GridModel,
    cell_bins: Seq<usize>,
    bin_fired: Seq<bool>,
    i: int,
)
    requires
        g.width > 0,
        g.height > 0,
        g.cells.len() == g.width * g.height,
        forall|j: int| 0 <= j < g.cells.len() ==> !#[trigger] g.cells[j],
        0 <= i < g.cells.len(),
    ensures
        !stepped_cell(g, cell_bins, bin_fired, i),
{
    let w = g.width as int;
    let h = g.height as int;
    assert forall|x: int, y: int| !#[trigger] g.wrapped(x, y) by {
        vstd::arithmetic::div_mod::lemma_mod_bound(x, w);
        vstd::arithmetic::div_mod::lemma_mod_bound(y, h);
        lemma_index_bounds(x % w, y % h, w, h);
    }
}

/// One xorshift64 step.
pub fn xorshift_step(s: u64) -> (r: u64)
    ensures
        r == xorshift(s),
{
    let a = s ^ (s << 13u64);
    let b = a ^ (a >> 7u64);
    b ^ (b << 17u64)
}

} // verus!
