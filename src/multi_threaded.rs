use crate::cell::SimpleCell;
use crate::engine::{
    apply_events, count_cells, render_cells, seeded_state, spawn_cells, validate, CellStore,
};
use crate::model::{
    count_alive, counts_consistent, decide_all, event_at, in_prefix, lemma_cube_bound,
    lemma_step_preserves_invariant, lemma_zeroed_empty, lemma_zeroed_grid, step, valid_for,
    zeroed,
};
use crate::render::{counts_of, states_of, CellRenderer};
use crate::rule::Rule;
use crate::utilities::{
    cube, default_noise, get_centre, within_radius, IVec3, MAX_BOUNDS, NOISE_AMOUNT,
    NOISE_RADIUS,
};
use vstd::arithmetic::div_mod::{lemma_fundamental_div_mod, lemma_fundamental_div_mod_converse};
use vstd::prelude::*;

verus! {

/// Largest number of chunks a grid is split into.
pub const MAX_CHUNKS: usize = 255;

/// Relies on num_cpus::get: the number of logical CPUs this process may run on.
#[verifier::external_body]
fn available_cpus() -> (r: usize) {
    num_cpus::get()
}

/// A cell as stored in a chunk.
#[derive(Clone, Copy, Debug)]
pub struct ParallelCell {
    state: u8,
    neighbours: u8,
}

impl ParallelCell {
    /// The cell as a `SimpleCell`.
    pub closed spec fn view_cell(self) -> SimpleCell {
        SimpleCell { state: self.state, neighbours: self.neighbours }
    }

    /// A dead cell with no live neighbours.
    pub fn new() -> (r: ParallelCell)
        ensures
            r.view_cell() == SimpleCell::new_spec(),
    {
        ParallelCell { state: 0, neighbours: 0 }
    }

    pub fn get_state(&self) -> (r: u8)
        ensures
            r == self.view_cell().state,
    {
        self.state
    }

    pub fn get_neighbours(&self) -> (r: u8)
        ensures
            r == self.view_cell().neighbours,
    {
        self.neighbours
    }

    /// Sets the state and returns it.
    pub fn set_state(&mut self, state: u8) -> (r: u8)
        ensures
            r == state,
            final(self).view_cell() == (SimpleCell { state, ..old(self).view_cell() }),
    {
        self.state = state;
        self.state
    }

    /// Whether the cell is dead.
    pub fn is_dead(&self) -> (r: bool)
        ensures
            r == (self.view_cell().state == 0),
    {
        self.state == 0
    }
}

/// The cells of a chunk as `SimpleCell`s.
pub open spec fn chunk_cells(cells: Seq<ParallelCell>) -> Seq<SimpleCell> {
    Seq::new(cells.len(), |o: int| cells[o].view_cell())
}

/// One contiguous run of flat indices of the cube.
pub struct Chunk {
    cells: Vec<ParallelCell>,
    bounds: usize,
    index: u8,
}

impl Chunk {
    /// The cells of the chunk as `SimpleCell`s.
    pub closed spec fn view_cells(&self) -> Seq<SimpleCell> {
        chunk_cells(self.cells@)
    }

    pub closed spec fn spec_bounds(&self) -> usize {
        self.bounds
    }

    pub closed spec fn spec_index(&self) -> u8 {
        self.index
    }

    /// An empty chunk at position `index`.
    pub fn new(index: u8) -> (r: Chunk)
        ensures
            r.view_cells().len() == 0,
            r.spec_bounds() == 0,
            r.spec_index() == index,
    {
        Chunk { cells: Vec::new(), bounds: 0, index }
    }

    /// The side length of the cube the chunk belongs to.
    pub fn get_bounds(&self) -> (r: usize)
        ensures
            r == self.spec_bounds(),
    {
        self.bounds
    }

    /// Records the side length of the cube the chunk belongs to, and returns it.
    pub fn set_bounds(&mut self, bounds: usize) -> (r: usize)
        ensures
            r == bounds,
            final(self).spec_bounds() == bounds,
            final(self).view_cells() == old(self).view_cells(),
            final(self).spec_index() == old(self).spec_index(),
    {
        self.bounds = bounds;
        self.bounds
    }

    /// Number of cells in the chunk.
    pub fn len(&self) -> (r: usize)
        ensures
            r == self.view_cells().len(),
    {
        self.cells.len()
    }
}

/// The flat indices of the first `k` cells of a chunk starting at `start` that have an
/// event of the given kind, in increasing order.
pub open spec fn local_events(
    s: Seq<SimpleCell>,
    start: int,
    rule: Rule,
    births: bool,
    k: int,
) -> Seq<usize>
    decreases k,
{
    if k <= 0 {
        Seq::empty()
    } else {
        let prev = local_events(s, start, rule, births, k - 1);
        if event_at(s, rule, births, k - 1) {
            prev.push((start + k - 1) as usize)
        } else {
            prev
        }
    }
}

proof fn lemma_local_events(s: Seq<SimpleCell>, start: int, rule: Rule, births: bool, k: int)
    requires
        0 <= k <= s.len(),
        0 <= start,
        start + k <= usize::MAX,
    ensures
        ({
            let e = local_events(s, start, rule, births, k);
            &&& forall|a: int, b: int| 0 <= a < b < e.len() ==> e[a] < e[b]
            &&& forall|u: int|
                0 <= u < e.len() ==> start <= #[trigger] e[u] < start + k && event_at(
                    s,
                    rule,
                    births,
                    e[u] - start,
                )
            &&& forall|o: int|
                0 <= o < k && #[trigger] event_at(s, rule, births, o) ==> in_prefix(
                    e,
                    e.len() as int,
                    start + o,
                )
        }),
    decreases k,
{
    if k > 0 {
        lemma_local_events(s, start, rule, births, k - 1);
        let prev = local_events(s, start, rule, births, k - 1);
        let e = local_events(s, start, rule, births, k);
        assert forall|o: int| 0 <= o < k && #[trigger] event_at(s, rule, births, o) implies in_prefix(
            e,
            e.len() as int,
            start + o,
        ) by {
            if o < k - 1 {
                let u = choose|u: int| 0 <= u < prev.len() && prev[u] == start + o;
                assert(e[u] == prev[u]);
            } else {
                assert(e[e.len() - 1] == start + o);
            }
        }
    }
}

/// The cells of the cube split into chunks of `chunk_len` consecutive flat indices.
pub struct MultiThreaded {
    chunks: Vec<Chunk>,
    bounds: usize,
    chunk_len: usize,
}

/// Length of chunk `c` when `total` cells are split into `k` chunks of `len` (the last
/// one holds the rest).
pub open spec fn chunk_size(c: int, k: int, len: int, total: int) -> int {
    if c + 1 < k {
        len
    } else {
        total - (k - 1) * len
    }
}

impl MultiThreaded {
    pub closed spec fn chunk_count(&self) -> int {
        self.chunks@.len() as int
    }

    /// Where flat index `i` lives: chunk `i / chunk_len`, offset `i % chunk_len`.
    proof fn lemma_locate(&self, i: int)
        requires
            self.well_formed(),
            0 <= i < cube(self.bounds as int),
        ensures
            0 <= i / (self.chunk_len as int) < self.chunks@.len(),
            0 <= i % (self.chunk_len as int) < self.chunks@[i / (self.chunk_len as int)].cells@.len(),
            i == (i / (self.chunk_len as int)) * (self.chunk_len as int) + i % (self.chunk_len as int),
    {
        let l = self.chunk_len as int;
        let k = self.chunks@.len() as int;
        let total = cube(self.bounds as int);
        lemma_fundamental_div_mod(i, l);
        let c = i / l;
        let o = i % l;
        assert(0 <= o < l);
        assert(0 <= c < k) by (nonlinear_arith)
            requires
                i == l * c + o,
                0 <= o < l,
                0 <= i < total,
                k * l >= total,
        ;
        if c + 1 >= k {
            assert(c == k - 1);
            assert(o < total - (k - 1) * l) by (nonlinear_arith)
                requires
                    i == l * c + o,
                    c == k - 1,
                    i < total,
            ;
        }
        assert(i == c * l + o) by (nonlinear_arith)
            requires
                i == l * c + o,
        ;
    }

    /// Chunk `c` covers the flat indices `c * chunk_len .. c * chunk_len + size`.
    proof fn lemma_chunk_range(&self, c: int, o: int)
        requires
            self.well_formed(),
            0 <= c < self.chunks@.len(),
            0 <= o < self.chunks@[c].cells@.len(),
        ensures
            0 <= c * (self.chunk_len as int) + o < cube(self.bounds as int),
            (c * (self.chunk_len as int) + o) / (self.chunk_len as int) == c,
            (c * (self.chunk_len as int) + o) % (self.chunk_len as int) == o,
    {
        let l = self.chunk_len as int;
        let k = self.chunks@.len() as int;
        let total = cube(self.bounds as int);
        assert(self.chunks@[c].cells@.len() == chunk_size(c, k, l, total));
        assert(k * l == (k - 1) * l + l) by (nonlinear_arith);
        assert(o < l);
        assert(0 <= c * l + o < total) by (nonlinear_arith)
            requires
                0 <= c < k,
                0 <= o,
                o < l,
                (k - 1) * l < total,
                c + 1 < k ==> o < l,
                c + 1 >= k ==> o < total - (k - 1) * l,
                0 < l,
        ;
        lemma_fundamental_div_mod_converse(c * l + o, l, c, o);
    }
}

impl CellStore for MultiThreaded {
    closed spec fn cells_view(&self) -> Seq<SimpleCell> {
        let l = self.chunk_len as int;
        Seq::new(
            cube(self.bounds as int) as nat,
            |i: int| self.chunks@[i / l].cells@[i % l].view_cell(),
        )
    }

    closed spec fn side(&self) -> int {
        self.bounds as int
    }

    closed spec fn well_formed(&self) -> bool {
        let l = self.chunk_len as int;
        let k = self.chunks@.len() as int;
        let total = cube(self.bounds as int);
        &&& self.bounds <= MAX_BOUNDS
        &&& l >= 1
        &&& k * l >= total
        &&& k == 0 || (k - 1) * l < total
        &&& forall|c: int|
            0 <= c < k ==> (#[trigger] self.chunks@[c]).cells@.len() == chunk_size(c, k, l, total)
                && self.chunks@[c].bounds == self.bounds
    }

    proof fn lemma_shape(&self) {
        lemma_cube_bound(self.bounds as int);
    }

    fn bounds(&self) -> (r: i32) {
        self.bounds as i32
    }

    fn cell_count(&self) -> (r: usize) {
        proof {
            lemma_cube_bound(self.bounds as int);
            assert(0 <= self.bounds * self.bounds <= MAX_BOUNDS * MAX_BOUNDS) by (nonlinear_arith)
                requires
                    0 <= self.bounds <= MAX_BOUNDS,
            ;
        }
        self.bounds * self.bounds * self.bounds
    }

    fn cell(&self, index: usize) -> (c: SimpleCell) {
        proof {
            self.lemma_locate(index as int);
        }
        let chunk = index / self.chunk_len;
        let offset = index % self.chunk_len;
        let p = self.chunks[chunk].cells[offset];
        SimpleCell { state: p.state, neighbours: p.neighbours }
    }

    fn set_cell(&mut self, index: usize, c: SimpleCell) {
        let ghost before = self.cells_view();
        let ghost l = self.chunk_len as int;
        proof {
            self.lemma_locate(index as int);
        }
        let chunk = index / self.chunk_len;
        let offset = index % self.chunk_len;
        self.chunks[chunk].cells[offset] = ParallelCell { state: c.state, neighbours: c.neighbours };
        proof {
            assert forall|c2: int| 0 <= c2 < self.chunks@.len() implies (#[trigger] self.chunks@[c2]).cells@.len()
                == old(self).chunks@[c2].cells@.len() && self.chunks@[c2].bounds == self.bounds by {
                assert(old(self).chunks@[c2] == old(self).chunks@[c2]);
            }
            assert forall|i: int| 0 <= i < before.len() implies #[trigger] self.cells_view()[i]
                == before.update(index as int, c)[i] by {
                self.lemma_locate(i);
                old(self).lemma_locate(i);
                if i != index {
                    if i / l == chunk as int && i % l == offset as int {
                        assert(i == index);
                    }
                }
            }
            assert(self.cells_view() =~= before.update(index as int, c));
        }
    }
}

impl MultiThreaded {
    /// An empty simulation of side 0.
    pub fn new() -> (r: MultiThreaded)
        ensures
            r.well_formed(),
            r.side() == 0,
            r.cells_view().len() == 0,
    {
        MultiThreaded { chunks: Vec::new(), bounds: 0, chunk_len: 1 }
    }

    /// The side length of the cube.
    pub fn get_bounds(&self) -> (r: usize)
        requires
            self.well_formed(),
        ensures
            r == self.side(),
    {
        self.bounds
    }

    /// Resizes the cube to side `bounds`, with every cell dead and every count 0, split into
    /// one chunk per available CPU (at most `MAX_CHUNKS`); keeps the cells as they are when
    /// the side does not change. Returns the side now in effect.
    pub fn set_bounds(&mut self, bounds: usize) -> (r: usize)
        requires
            old(self).well_formed(),
            bounds <= MAX_BOUNDS,
        ensures
            final(self).well_formed(),
            r == bounds,
            final(self).side() == bounds,
            bounds != old(self).side() ==> final(self).cells_view() == zeroed(bounds as int),
            bounds == old(self).side() ==> final(self).cells_view() == old(self).cells_view(),
    {
        if bounds == self.bounds {
            return self.bounds;
        }
        proof {
            lemma_cube_bound(bounds as int);
            assert(0 <= bounds * bounds <= MAX_BOUNDS * MAX_BOUNDS) by (nonlinear_arith)
                requires
                    0 <= bounds <= MAX_BOUNDS,
            ;
        }
        let total: usize = bounds * bounds * bounds;
        let cpus = available_cpus();
        let wanted: usize = if cpus == 0 {
            1
        } else if cpus > MAX_CHUNKS {
            MAX_CHUNKS
        } else {
            cpus
        };
        let chunk_len: usize = if total == 0 {
            1
        } else {
            (total + wanted - 1) / wanted
        };
        assert(chunk_len >= 1) by {
            if total > 0 {
                let x = (total + wanted - 1) as int;
                let d = wanted as int;
                lemma_fundamental_div_mod(x, d);
                assert(x / d >= 1) by (nonlinear_arith)
                    requires
                        x == d * (x / d) + x % d,
                        0 <= x % d < d,
                        x >= d,
                        d >= 1,
                ;
            }
        }
        let mut chunks: Vec<Chunk> = Vec::new();
        let mut start: usize = 0;
        let mut c: usize = 0;
        while start < total
            invariant
                chunk_len >= 1,
                total == cube(bounds as int),
                total <= 2146689000,
                start <= total,
                c <= start,
                start == c * chunk_len || (start == total && c * chunk_len > total),
                c == 0 || (c - 1) * chunk_len < total,
                chunks@.len() == c,
                forall|d: int|
                    0 <= d < c ==> (#[trigger] chunks@[d]).cells@.len() == (if total - d * chunk_len
                        < chunk_len {
                        total - d * chunk_len
                    } else {
                        chunk_len as int
                    }) && chunks@[d].bounds == bounds,
                forall|d: int, o: int|
                    0 <= d < c && 0 <= o < chunks@[d].cells@.len()
                        ==> (#[trigger] chunks@[d].cells@[o]).view_cell() == SimpleCell::new_spec(),
            decreases total - start,
        {
            let size: usize = if total - start < chunk_len {
                total - start
            } else {
                chunk_len
            };
            let mut cells: Vec<ParallelCell> = Vec::new();
            let mut o: usize = 0;
            while o < size
                invariant
                    o <= size,
                    cells@.len() == o,
                    forall|q: int|
                        0 <= q < o ==> (#[trigger] cells@[q]).view_cell() == SimpleCell::new_spec(),
                decreases size - o,
            {
                cells.push(ParallelCell::new());
                o += 1;
            }
            let index: u8 = if c < 255 {
                c as u8
            } else {
                255
            };
            let ghost prev = chunks@;
            chunks.push(Chunk { cells, bounds, index });
            proof {
                assert(start == c * chunk_len);
                assert(chunks@[c as int].cells@.len() == size);
                assert forall|d: int| 0 <= d < c + 1 implies (#[trigger] chunks@[d]).cells@.len() == (
                if total - d * chunk_len < chunk_len {
                    total - d * chunk_len
                } else {
                    chunk_len as int
                }) && chunks@[d].bounds == bounds by {
                    if d < c {
                        assert(chunks@[d] == prev[d]);
                    }
                }
                assert((c + 1) * chunk_len == c * chunk_len + chunk_len) by (nonlinear_arith);
            }
            start = start + size;
            c += 1;
        }
        self.chunks = chunks;
        self.bounds = bounds;
        self.chunk_len = chunk_len;
        proof {
            let l = chunk_len as int;
            let k = c as int;
            assert(k * l >= total);
            assert forall|d: int| 0 <= d < k implies (#[trigger] self.chunks@[d]).cells@.len()
                == chunk_size(d, k, l, total as int) && self.chunks@[d].bounds == self.bounds by {
                if d + 1 < k {
                    assert((d + 1) * l <= (k - 1) * l) by (nonlinear_arith)
                        requires
                            d + 1 <= k - 1,
                            l >= 1,
                    ;
                    assert((d + 1) * l == d * l + l) by (nonlinear_arith);
                } else {
                    assert(k * l == (k - 1) * l + l) by (nonlinear_arith);
                }
            }
            assert(self.well_formed());
            if total > 0 {
                assert forall|i: int| 0 <= i < total implies #[trigger] self.cells_view()[i]
                    == zeroed(bounds as int)[i] by {
                    self.lemma_locate(i);
                }
            }
            assert(self.cells_view() =~= zeroed(bounds as int));
        }
        self.bounds
    }
}

impl MultiThreaded {
    /// The decide phase for one chunk whose first cell has flat index `start`: advances every
    /// cell's state from the counts as they stand, and appends the flat indices of its spawn
    /// and death events, in increasing order. Chunks can be decided in any order, or at the
    /// same time: this reads and writes the chunk alone. Returns the chunk's index.
    pub fn update_values(
        chunk: &mut Chunk,
        rule: &Rule,
        chunk_spawns: &mut Vec<usize>,
        chunk_deaths: &mut Vec<usize>,
        start: usize,
    ) -> (r: usize)
        requires
            rule.states >= 1,
            start + old(chunk).view_cells().len() <= usize::MAX,
        ensures
            r == old(chunk).spec_index(),
            final(chunk).spec_index() == old(chunk).spec_index(),
            final(chunk).spec_bounds() == old(chunk).spec_bounds(),
            final(chunk).view_cells() == decide_all(old(chunk).view_cells(), *rule),
            final(chunk_spawns)@ == old(chunk_spawns)@ + local_events(
                old(chunk).view_cells(),
                start as int,
                *rule,
                true,
                old(chunk).view_cells().len() as int,
            ),
            final(chunk_deaths)@ == old(chunk_deaths)@ + local_events(
                old(chunk).view_cells(),
                start as int,
                *rule,
                false,
                old(chunk).view_cells().len() as int,
            ),
    {
        let ghost v0 = chunk.view_cells();
        let ghost s0 = chunk_spawns@;
        let ghost d0 = chunk_deaths@;
        let len = chunk.cells.len();
        let mut o: usize = 0;
        while o < len
            invariant
                o <= len,
                len == v0.len(),
                rule.states >= 1,
                start + len <= usize::MAX,
                chunk.cells@.len() == len,
                chunk.index == old(chunk).index,
                chunk.bounds == old(chunk).bounds,
                forall|q: int|
                    0 <= q < o ==> #[trigger] chunk.cells@[q].view_cell() == decide_all(v0, *rule)[q],
                forall|q: int| o <= q < len ==> #[trigger] chunk.cells@[q].view_cell() == v0[q],
                chunk_spawns@ == s0 + local_events(v0, start as int, *rule, true, o as int),
                chunk_deaths@ == d0 + local_events(v0, start as int, *rule, false, o as int),
            decreases len - o,
        {
            let mut cell = chunk.cells[o];
            assert(cell.view_cell() == v0[o as int]);
            let ghost sp = chunk_spawns@;
            let ghost de = chunk_deaths@;
            if cell.is_dead() {
                if rule.birth.is_valid(cell.neighbours) {
                    cell.state = rule.states;
                    chunk_spawns.push(start + o);
                }
            } else {
                if cell.state < rule.states || !rule.survival.is_valid(cell.neighbours) {
                    if cell.state == rule.states {
                        chunk_deaths.push(start + o);
                    }
                    cell.state = cell.state - 1;
                }
            }
            chunk.cells[o] = cell;
            proof {
                assert(s0 + local_events(v0, start as int, *rule, true, o + 1) =~= chunk_spawns@);
                assert(d0 + local_events(v0, start as int, *rule, false, o + 1) =~= chunk_deaths@);
            }
            o += 1;
        }
        assert(chunk.view_cells() =~= decide_all(v0, *rule));
        chunk.index as usize
    }

    /// Advances the simulation by one tick under `rule`: every chunk is decided from the
    /// counts as they stand, and only then are the events of all chunks applied to the
    /// counts, including those that land in a neighbouring chunk.
    pub fn update(&mut self, rule: &Rule)
        requires
            old(self).well_formed(),
            rule.states >= 1,
            valid_for(old(self).cells_view(), *rule, old(self).side()),
        ensures
            final(self).well_formed(),
            final(self).side() == old(self).side(),
            final(self).cells_view() == step(old(self).cells_view(), *rule, old(self).side()),
            valid_for(final(self).cells_view(), *rule, final(self).side()),
    {
        let ghost base = self.cells_view();
        let ghost l = self.chunk_len as int;
        let ghost total = cube(self.bounds as int);
        proof {
            lemma_cube_bound(self.bounds as int);
        }
        let mut spawns: Vec<usize> = Vec::new();
        let mut deaths: Vec<usize> = Vec::new();
        let n_chunks = self.chunks.len();
        let mut c: usize = 0;
        let ghost mut lo: int = 0;
        while c < n_chunks
            invariant
                c <= n_chunks,
                n_chunks == self.chunks@.len(),
                n_chunks == old(self).chunks@.len(),
                self.bounds == old(self).bounds,
                self.chunk_len == old(self).chunk_len,
                l == self.chunk_len,
                total == cube(self.bounds as int),
                total <= 2146689000,
                old(self).well_formed(),
                base == old(self).cells_view(),
                rule.states >= 1,
                lo == c * l,
                forall|d: int|
                    0 <= d < n_chunks ==> (#[trigger] self.chunks@[d]).cells@.len()
                        == old(self).chunks@[d].cells@.len() && self.chunks@[d].bounds
                        == old(self).chunks@[d].bounds,
                forall|d: int|
                    c <= d < n_chunks ==> #[trigger] self.chunks@[d] == old(self).chunks@[d],
                forall|d: int, o: int|
                    0 <= d < c && 0 <= o < self.chunks@[d].cells@.len() ==> (#[trigger] self.chunks@[d].cells@[o]).view_cell()
                        == decide_all(old(self).chunks@[d].view_cells(), *rule)[o],
                forall|a: int, b: int| 0 <= a < b < spawns@.len() ==> spawns@[a] < spawns@[b],
                forall|u: int|
                    0 <= u < spawns@.len() ==> #[trigger] spawns@[u] < lo && spawns@[u] < total
                        && event_at(base, *rule, true, spawns@[u] as int),
                forall|i: int|
                    0 <= i < lo && i < total && #[trigger] event_at(base, *rule, true, i) ==> in_prefix(
                        spawns@,
                        spawns@.len() as int,
                        i,
                    ),
                forall|a: int, b: int| 0 <= a < b < deaths@.len() ==> deaths@[a] < deaths@[b],
                forall|u: int|
                    0 <= u < deaths@.len() ==> #[trigger] deaths@[u] < lo && deaths@[u] < total
                        && event_at(base, *rule, false, deaths@[u] as int),
                forall|i: int|
                    0 <= i < lo && i < total && #[trigger] event_at(base, *rule, false, i) ==> in_prefix(
                        deaths@,
                        deaths@.len() as int,
                        i,
                    ),
            decreases n_chunks - c,
        {
            let ghost chunk0 = self.chunks@[c as int];
            let ghost cv = chunk0.view_cells();
            let ghost len_c = cv.len() as int;
            proof {
                assert(self.chunks@[c as int] == old(self).chunks@[c as int]);
                assert(c * l <= (n_chunks - 1) * l) by (nonlinear_arith)
                    requires
                        c <= n_chunks - 1,
                        l >= 1,
                ;
                assert(old(self).chunks@[c as int].cells@.len() == chunk_size(
                    c as int,
                    n_chunks as int,
                    l,
                    total,
                ));
                assert(n_chunks * l == (n_chunks - 1) * l + l) by (nonlinear_arith);
                assert((c + 1) * l == c * l + l) by (nonlinear_arith);
                if c + 1 < n_chunks {
                    assert((c + 1) * l <= (n_chunks - 1) * l) by (nonlinear_arith)
                        requires
                            c + 1 <= n_chunks - 1,
                            l >= 1,
                    ;
                    assert(len_c == l);
                } else {
                    assert(c == n_chunks - 1);
                    assert(len_c == total - (n_chunks - 1) * l);
                }
                assert(lo + len_c <= total);
                assert(len_c == l || lo + len_c == total);
                assert forall|o: int| 0 <= o < len_c implies #[trigger] cv[o] == base[lo + o] by {
                    old(self).lemma_chunk_range(c as int, o);
                }
            }
            let start = c * self.chunk_len;
            let ghost sp0 = spawns@;
            let ghost de0 = deaths@;
            MultiThreaded::update_values(&mut self.chunks[c], rule, &mut spawns, &mut deaths, start);
            proof {
                assert(self.chunks@[c as int].cells@.len() == chunk_cells(
                    self.chunks@[c as int].cells@,
                ).len());
                assert forall|d: int| 0 <= d < n_chunks implies (#[trigger] self.chunks@[d]).cells@.len()
                    == old(self).chunks@[d].cells@.len() && self.chunks@[d].bounds
                    == old(self).chunks@[d].bounds by {
                    if d == c {
                        assert(len_c == chunk0.cells@.len());
                    }
                }
                lemma_local_events(cv, lo, *rule, true, len_c);
                lemma_local_events(cv, lo, *rule, false, len_c);
                let ls = local_events(cv, lo, *rule, true, len_c);
                let ld = local_events(cv, lo, *rule, false, len_c);
                assert forall|o: int| 0 <= o < len_c implies #[trigger] event_at(cv, *rule, true, o)
                    == event_at(base, *rule, true, lo + o) && event_at(cv, *rule, false, o)
                    == event_at(base, *rule, false, lo + o) by {
                    assert(cv[o] == base[lo + o]);
                }
                assert forall|a: int, b: int| 0 <= a < b < spawns@.len() implies spawns@[a]
                    < spawns@[b] by {
                    if b >= sp0.len() {
                        assert(spawns@[b] == ls[b - sp0.len()]);
                        if a >= sp0.len() {
                            assert(spawns@[a] == ls[a - sp0.len()]);
                        } else {
                            assert(spawns@[a] == sp0[a]);
                        }
                    } else {
                        assert(spawns@[a] == sp0[a] && spawns@[b] == sp0[b]);
                    }
                }
                assert forall|u: int| 0 <= u < spawns@.len() implies #[trigger] spawns@[u] < lo + l
                    && spawns@[u] < total && event_at(base, *rule, true, spawns@[u] as int) by {
                    if u >= sp0.len() {
                        assert(spawns@[u] == ls[u - sp0.len()]);
                        assert(event_at(cv, *rule, true, ls[u - sp0.len()] - lo));
                    } else {
                        assert(spawns@[u] == sp0[u]);
                    }
                }
                assert forall|i: int| 0 <= i < lo + l && i < total && #[trigger] event_at(
                    base,
                    *rule,
                    true,
                    i,
                ) implies in_prefix(spawns@, spawns@.len() as int, i) by {
                    if i < lo {
                        let u = choose|u: int| 0 <= u < sp0.len() && sp0[u] == i;
                        assert(spawns@[u] == i);
                    } else {
                        assert(event_at(cv, *rule, true, i - lo));
                        let u = choose|u: int| 0 <= u < ls.len() && ls[u] == lo + (i - lo);
                        assert(spawns@[sp0.len() + u] == i);
                    }
                }
                assert forall|a: int, b: int| 0 <= a < b < deaths@.len() implies deaths@[a]
                    < deaths@[b] by {
                    if b >= de0.len() {
                        assert(deaths@[b] == ld[b - de0.len()]);
                        if a >= de0.len() {
                            assert(deaths@[a] == ld[a - de0.len()]);
                        } else {
                            assert(deaths@[a] == de0[a]);
                        }
                    } else {
                        assert(deaths@[a] == de0[a] && deaths@[b] == de0[b]);
                    }
                }
                assert forall|u: int| 0 <= u < deaths@.len() implies #[trigger] deaths@[u] < lo + l
                    && deaths@[u] < total && event_at(base, *rule, false, deaths@[u] as int) by {
                    if u >= de0.len() {
                        assert(deaths@[u] == ld[u - de0.len()]);
                        assert(event_at(cv, *rule, false, ld[u - de0.len()] - lo));
                    } else {
                        assert(deaths@[u] == de0[u]);
                    }
                }
                assert forall|i: int| 0 <= i < lo + l && i < total && #[trigger] event_at(
                    base,
                    *rule,
                    false,
                    i,
                ) implies in_prefix(deaths@, deaths@.len() as int, i) by {
                    if i < lo {
                        let u = choose|u: int| 0 <= u < de0.len() && de0[u] == i;
                        assert(deaths@[u] == i);
                    } else {
                        assert(event_at(cv, *rule, false, i - lo));
                        let u = choose|u: int| 0 <= u < ld.len() && ld[u] == lo + (i - lo);
                        assert(deaths@[de0.len() + u] == i);
                    }
                }
                assert((c + 1) * l == c * l + l) by (nonlinear_arith);
                lo = lo + l;
            }
            c += 1;
        }
        proof {
            assert(self.well_formed());
            assert forall|i: int| 0 <= i < total implies #[trigger] self.cells_view()[i]
                == decide_all(base, *rule)[i] by {
                self.lemma_locate(i);
                old(self).lemma_locate(i);
            }
            assert(self.cells_view() =~= decide_all(base, *rule));
            assert(lo >= total) by {
                assert(n_chunks * l >= total);
            }
        }
        apply_events(self, rule, &spawns, &deaths, Ghost(base));
        proof {
            lemma_step_preserves_invariant(base, *rule, self.bounds as int);
        }
    }
}

impl MultiThreaded {
    /// Number of cells that are not dead.
    pub fn get_count(&self) -> (r: usize)
        requires
            self.well_formed(),
        ensures
            r == count_alive(self.cells_view()),
    {
        count_cells(self)
    }

    /// Centre point of the cube.
    pub fn get_centre(&self) -> (r: IVec3)
        requires
            self.well_formed(),
        ensures
            r.x == self.side() / 2,
            r.y == self.side() / 2,
            r.z == self.side() / 2,
    {
        get_centre(self.bounds as i32)
    }

    /// Clears the cube to all dead cells, keeping its side.
    pub fn reset(&mut self)
        requires
            old(self).well_formed(),
        ensures
            final(self).well_formed(),
            final(self).side() == old(self).side(),
            final(self).cells_view() == zeroed(old(self).side()),
            count_alive(final(self).cells_view()) == 0,
            forall|rule: Rule|
                rule.states >= 1 ==> #[trigger] valid_for(final(self).cells_view(), rule, final(self).side()),
    {
        let bounds = self.bounds;
        self.set_bounds(0);
        self.set_bounds(bounds);
        proof {
            if bounds == 0 {
                assert(self.cells_view() =~= zeroed(0));
            }
            lemma_zeroed_empty(bounds as int);
            assert forall|rule: Rule| rule.states >= 1 implies #[trigger] valid_for(
                self.cells_view(),
                rule,
                self.side(),
            ) by {
                lemma_zeroed_grid(bounds as int, rule);
            }
        }
    }

    /// Whether every neighbour count equals the number of fully alive cells around it.
    pub fn validate(&self, rule: &Rule) -> (r: bool)
        requires
            self.well_formed(),
        ensures
            r == counts_consistent(self.cells_view(), *rule, self.side()),
    {
        validate(self, rule)
    }

    /// Seeds the cube from the given sample points (see `engine::spawn_cells`).
    pub fn spawn_cells(&mut self, rule: &Rule, samples: &Vec<IVec3>)
        requires
            old(self).well_formed(),
            old(self).side() > 0,
            rule.states >= 1,
            valid_for(old(self).cells_view(), *rule, old(self).side()),
        ensures
            final(self).well_formed(),
            final(self).side() == old(self).side(),
            valid_for(final(self).cells_view(), *rule, final(self).side()),
            forall|j: int|
                0 <= j < final(self).cells_view().len() ==> #[trigger] final(self).cells_view()[j].state
                    == seeded_state(
                    old(self).cells_view(),
                    samples@,
                    samples@.len() as int,
                    j,
                    rule.states,
                    old(self).side(),
                ),
    {
        spawn_cells(self, rule, samples)
    }

    /// Seeds random activity around the centre of the cube: `NOISE_AMOUNT` points drawn
    /// within `NOISE_RADIUS` of the centre, each bringing a dead cell to full life.
    pub fn spawn_noise(&mut self, rule: &Rule)
        requires
            old(self).well_formed(),
            old(self).side() > 0,
            rule.states >= 1,
            valid_for(old(self).cells_view(), *rule, old(self).side()),
        ensures
            final(self).well_formed(),
            final(self).side() == old(self).side(),
            valid_for(final(self).cells_view(), *rule, final(self).side()),
            exists|samples: Seq<IVec3>|
                {
                    &&& samples.len() == NOISE_AMOUNT
                    &&& forall|k: int|
                        0 <= k < samples.len() ==> within_radius(
                            #[trigger] samples[k],
                            IVec3 {
                                x: (old(self).side() / 2) as i32,
                                y: (old(self).side() / 2) as i32,
                                z: (old(self).side() / 2) as i32,
                            },
                            NOISE_RADIUS as int,
                        )
                    &&& forall|j: int|
                        0 <= j < final(self).cells_view().len()
                            ==> #[trigger] final(self).cells_view()[j].state == seeded_state(
                            old(self).cells_view(),
                            samples,
                            samples.len() as int,
                            j,
                            rule.states,
                            old(self).side(),
                        )
                },
    {
        let centre = self.get_centre();
        let samples = default_noise(centre);
        spawn_cells(self, rule, &samples);
        assert(centre == IVec3 {
            x: (old(self).side() / 2) as i32,
            y: (old(self).side() / 2) as i32,
            z: (old(self).side() / 2) as i32,
        });
    }

    /// Hands every cell's state and neighbour count, by flat index, to the renderer.
    pub fn render(&self, renderer: &mut CellRenderer)
        requires
            self.well_formed(),
        ensures
            final(renderer).values@ == states_of(self.cells_view()),
            final(renderer).neighbours@ == counts_of(self.cells_view()),
    {
        render_cells(self, renderer)
    }
}

} // verus!
