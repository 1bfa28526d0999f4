use crate::cell::SimpleCell;
use crate::engine::{
    count_cells, render_cells, seeded_state, spawn_cells, step_grid, validate, CellStore,
};
use crate::model::{
    count_alive, counts_consistent, lemma_cube_bound, lemma_zeroed_empty, lemma_zeroed_grid,
    step, valid_for, zeroed,
};
use crate::render::{counts_of, states_of, CellRenderer};
use crate::rule::Rule;
use crate::utilities::{
    cube, default_noise, get_centre, idx_to_pos, lemma_index_round_trip, pos_x, pos_y, pos_z,
    within_radius, IVec3, MAX_BOUNDS, NOISE_AMOUNT, NOISE_RADIUS,
};
use vstd::prelude::*;

verus! {

/// A point of the cube with unsigned coordinates, used to index nested storage.
#[derive(Clone, Copy, Debug, PartialEq, Eq, Structural)]
pub struct Position {
    x: usize,
    y: usize,
    z: usize,
}

impl Position {
    pub closed spec fn coords(self) -> (int, int, int) {
        (self.x as int, self.y as int, self.z as int)
    }

    pub fn new(x: i32, y: i32, z: i32) -> (r: Position)
        requires
            0 <= x,
            0 <= y,
            0 <= z,
        ensures
            r.coords() == (x as int, y as int, z as int),
    {
        Position { x: x as usize, y: y as usize, z: z as usize }
    }

    pub fn from_vec(pos: IVec3) -> (r: Position)
        requires
            0 <= pos.x,
            0 <= pos.y,
            0 <= pos.z,
        ensures
            r.coords() == (pos.x as int, pos.y as int, pos.z as int),
    {
        Position { x: pos.x as usize, y: pos.y as usize, z: pos.z as usize }
    }
}

/// The cells of the cube in nested vectors, indexed `[x][y][z]`.
pub struct MultiDimensional {
    cells: Vec<Vec<Vec<SimpleCell>>>,
    bounds: i32,
}

/// Whether nested storage has side `n` on every axis.
pub open spec fn nested_shape(cells: Seq<Vec<Vec<SimpleCell>>>, n: int) -> bool {
    &&& cells.len() == n
    &&& forall|x: int| 0 <= x < n ==> (#[trigger] cells[x])@.len() == n
    &&& forall|x: int, y: int| 0 <= x < n && 0 <= y < n ==> (#[trigger] cells[x]@[y])@.len() == n
}

/// The nested cells in flat index order.
pub open spec fn nested_view(cells: Seq<Vec<Vec<SimpleCell>>>, n: int) -> Seq<SimpleCell> {
    Seq::new(cube(n) as nat, |i: int| cells[pos_x(i, n)]@[pos_y(i, n)]@[pos_z(i, n)])
}

impl CellStore for MultiDimensional {
    closed spec fn cells_view(&self) -> Seq<SimpleCell> {
        nested_view(self.cells@, self.bounds as int)
    }

    closed spec fn side(&self) -> int {
        self.bounds as int
    }

    closed spec fn well_formed(&self) -> bool {
        &&& 0 <= self.bounds <= MAX_BOUNDS
        &&& self.bounds == 0 || nested_shape(self.cells@, self.bounds as int)
    }

    proof fn lemma_shape(&self) {
        lemma_cube_bound(self.bounds as int);
    }

    fn bounds(&self) -> (r: i32) {
        self.bounds
    }

    fn cell_count(&self) -> (r: usize) {
        proof {
            lemma_cube_bound(self.bounds as int);
            assert(0 <= self.bounds * self.bounds <= MAX_BOUNDS * MAX_BOUNDS) by (nonlinear_arith)
                requires
                    0 <= self.bounds <= MAX_BOUNDS,
            ;
        }
        (self.bounds * self.bounds * self.bounds) as usize
    }

    fn cell(&self, index: usize) -> (c: SimpleCell) {
        proof {
            lemma_cube_bound(self.bounds as int);
            assert(self.bounds > 0) by (nonlinear_arith)
                requires
                    self.bounds >= 0,
                    index < self.bounds * self.bounds * self.bounds,
            ;
            lemma_index_round_trip(index as int, self.bounds as int);
        }
        let pos = idx_to_pos(index as i32, self.bounds);
        self.cells[pos.x as usize][pos.y as usize][pos.z as usize]
    }

    fn set_cell(&mut self, index: usize, c: SimpleCell) {
        let ghost n = self.bounds as int;
        let ghost before = self.cells_view();
        proof {
            lemma_cube_bound(n);
            assert(n > 0) by (nonlinear_arith)
                requires
                    n >= 0,
                    index < n * n * n,
            ;
            lemma_index_round_trip(index as int, n);
        }
        let pos = idx_to_pos(index as i32, self.bounds);
        let x = pos.x as usize;
        let y = pos.y as usize;
        let z = pos.z as usize;
        self.cells[x][y][z] = c;
        proof {
            assert forall|i: int| 0 <= i < cube(n) implies #[trigger] self.cells_view()[i]
                == before.update(index as int, c)[i] by {
                lemma_index_round_trip(i, n);
            }
            assert(self.cells_view() =~= before.update(index as int, c));
        }
    }
}

impl MultiDimensional {
    /// An empty simulation of side 0.
    pub fn new() -> (r: Self)
        ensures
            r.well_formed(),
            r.side() == 0,
            r.cells_view().len() == 0,
    {
        MultiDimensional { cells: Vec::new(), bounds: 0 }
    }

    /// The side length of the cube.
    pub fn get_bounds(&self) -> (r: i32)
        requires
            self.well_formed(),
        ensures
            r == self.side(),
    {
        self.bounds
    }

    /// Number of cells that are not dead.
    pub fn get_count(&self) -> (r: usize)
        requires
            self.well_formed(),
        ensures
            r == count_alive(self.cells_view()),
    {
        count_cells(self)
    }

    /// Resizes the cube to side `new_bounds`, with every cell dead and every count 0; keeps
    /// the cells as they are when the side does not change. Returns the side now in effect.
    pub fn set_bounds(&mut self, new_bounds: i32) -> (r: i32)
        requires
            old(self).well_formed(),
            0 <= new_bounds <= MAX_BOUNDS,
        ensures
            final(self).well_formed(),
            r == new_bounds,
            final(self).side() == new_bounds,
            new_bounds != old(self).side() ==> final(self).cells_view() == zeroed(new_bounds as int),
            new_bounds == old(self).side() ==> final(self).cells_view() == old(self).cells_view(),
    {
        if new_bounds != self.bounds {
            let n = new_bounds as usize;
            let mut cells: Vec<Vec<Vec<SimpleCell>>> = Vec::new();
            let mut x: usize = 0;
            while x < n
                invariant
                    x <= n,
                    n == new_bounds,
                    cells@.len() == x,
                    forall|a: int| 0 <= a < x ==> (#[trigger] cells@[a])@.len() == n,
                    forall|a: int, b: int|
                        0 <= a < x && 0 <= b < n ==> (#[trigger] cells@[a]@[b])@.len() == n,
                    forall|a: int, b: int, c: int|
                        0 <= a < x && 0 <= b < n && 0 <= c < n ==> #[trigger] cells@[a]@[b]@[c]
                            == SimpleCell::new_spec(),
                decreases n - x,
            {
                let mut plane: Vec<Vec<SimpleCell>> = Vec::new();
                let mut y: usize = 0;
                while y < n
                    invariant
                        y <= n,
                        plane@.len() == y,
                        forall|b: int| 0 <= b < y ==> (#[trigger] plane@[b])@.len() == n,
                        forall|b: int, c: int|
                            0 <= b < y && 0 <= c < n ==> #[trigger] plane@[b]@[c]
                                == SimpleCell::new_spec(),
                    decreases n - y,
                {
                    let mut row: Vec<SimpleCell> = Vec::new();
                    let mut z: usize = 0;
                    while z < n
                        invariant
                            z <= n,
                            row@.len() == z,
                            forall|c: int| 0 <= c < z ==> #[trigger] row@[c] == SimpleCell::new_spec(),
                        decreases n - z,
                    {
                        row.push(SimpleCell::new());
                        z += 1;
                    }
                    plane.push(row);
                    y += 1;
                }
                cells.push(plane);
                x += 1;
            }
            self.cells = cells;
            self.bounds = new_bounds;
            proof {
                let nn = new_bounds as int;
                if nn > 0 {
                    assert forall|i: int| 0 <= i < cube(nn) implies #[trigger] self.cells_view()[i]
                        == zeroed(nn)[i] by {
                        lemma_index_round_trip(i, nn);
                    }
                }
                assert(self.cells_view() =~= zeroed(nn));
            }
        }
        self.bounds
    }

    /// Clears the cube to all dead cells, keeping its side.
    pub fn reset(&mut self)
        requires
            old(self).well_formed(),
        ensures
            final(self).well_formed(),
            final(self).side() == old(self).side(),
            final(self).cells_view() == zeroed(old(self).side()),
            count_alive(final(self).cells_view()) == 0,
            forall|rule: Rule|
                rule.states >= 1 ==> #[trigger] valid_for(final(self).cells_view(), rule, final(self).side()),
    {
        let bounds = self.bounds;
        self.set_bounds(0);
        self.set_bounds(bounds);
        proof {
            if bounds == 0 {
                assert(self.cells_view() =~= zeroed(0));
            }
            lemma_zeroed_empty(bounds as int);
            assert forall|rule: Rule| rule.states >= 1 implies #[trigger] valid_for(
                self.cells_view(),
                rule,
                self.side(),
            ) by {
                lemma_zeroed_grid(bounds as int, rule);
            }
        }
    }

    /// Advances the simulation by one tick under `rule`.
    pub fn update(&mut self, rule: &Rule)
        requires
            old(self).well_formed(),
            rule.states >= 1,
            valid_for(old(self).cells_view(), *rule, old(self).side()),
        ensures
            final(self).well_formed(),
            final(self).side() == old(self).side(),
            final(self).cells_view() == step(old(self).cells_view(), *rule, old(self).side()),
            valid_for(final(self).cells_view(), *rule, final(self).side()),
    {
        step_grid(self, rule)
    }

    /// Whether every neighbour count equals the number of fully alive cells around it.
    pub fn validate(&self, rule: &Rule) -> (r: bool)
        requires
            self.well_formed(),
        ensures
            r == counts_consistent(self.cells_view(), *rule, self.side()),
    {
        validate(self, rule)
    }

    /// Seeds the cube from the given sample points (see `engine::spawn_cells`).
    pub fn spawn_cells(&mut self, rule: &Rule, samples: &Vec<IVec3>)
        requires
            old(self).well_formed(),
            old(self).side() > 0,
            rule.states >= 1,
            valid_for(old(self).cells_view(), *rule, old(self).side()),
        ensures
            final(self).well_formed(),
            final(self).side() == old(self).side(),
            valid_for(final(self).cells_view(), *rule, final(self).side()),
            forall|j: int|
                0 <= j < final(self).cells_view().len() ==> #[trigger] final(self).cells_view()[j].state
                    == seeded_state(
                    old(self).cells_view(),
                    samples@,
                    samples@.len() as int,
                    j,
                    rule.states,
                    old(self).side(),
                ),
    {
        spawn_cells(self, rule, samples)
    }

    /// Seeds random activity around the centre of the cube: `NOISE_AMOUNT` points drawn
    /// within `NOISE_RADIUS` of the centre, each bringing a dead cell to full life.
    pub fn spawn_noise(&mut self, rule: &Rule)
        requires
            old(self).well_formed(),
            old(self).side() > 0,
            rule.states >= 1,
            valid_for(old(self).cells_view(), *rule, old(self).side()),
        ensures
            final(self).well_formed(),
            final(self).side() == old(self).side(),
            valid_for(final(self).cells_view(), *rule, final(self).side()),
            exists|samples: Seq<IVec3>|
                {
                    &&& samples.len() == NOISE_AMOUNT
                    &&& forall|k: int|
                        0 <= k < samples.len() ==> within_radius(
                            #[trigger] samples[k],
                            IVec3 {
                                x: (old(self).side() / 2) as i32,
                                y: (old(self).side() / 2) as i32,
                                z: (old(self).side() / 2) as i32,
                            },
                            NOISE_RADIUS as int,
                        )
                    &&& forall|j: int|
                        0 <= j < final(self).cells_view().len()
                            ==> #[trigger] final(self).cells_view()[j].state == seeded_state(
                            old(self).cells_view(),
                            samples,
                            samples.len() as int,
                            j,
                            rule.states,
                            old(self).side(),
                        )
                },
    {
        let centre = get_centre(self.bounds);
        let samples = default_noise(centre);
        spawn_cells(self, rule, &samples);
        assert(centre == IVec3 {
            x: (old(self).side() / 2) as i32,
            y: (old(self).side() / 2) as i32,
            z: (old(self).side() / 2) as i32,
        });
    }

    /// Hands every cell's state and neighbour count, by flat index, to the renderer.
    pub fn render(&self, renderer: &mut CellRenderer)
        requires
            self.well_formed(),
        ensures
            final(renderer).values@ == states_of(self.cells_view()),
            final(renderer).neighbours@ == counts_of(self.cells_view()),
    {
        render_cells(self, renderer)
    }
}

} // verus!
