use crate::cell::SimpleCell;
use crate::engine::{
    count_cells, render_cells, seeded_state, spawn_cells, step_grid, validate, CellStore,
};
use crate::model::{
    count_alive, counts_consistent, lemma_cube_bound, lemma_zeroed_empty, lemma_zeroed_grid,
    step, valid_for, zeroed,
};
use crate::render::{counts_of, states_of, CellRenderer};
use crate::rule::Rule;
use crate::utilities::{
    cube, default_noise, get_centre, within_radius, IVec3, MAX_BOUNDS, NOISE_AMOUNT,
    NOISE_RADIUS,
};
use vstd::prelude::*;

verus! {

/// The cells of the cube in one flat vector, indexed by `pos_to_idx`.
pub struct SingleThreaded {
    cells: Vec<SimpleCell>,
    bounds: i32,
}

impl CellStore for SingleThreaded {
    closed spec fn cells_view(&self) -> Seq<SimpleCell> {
        self.cells@
    }

    closed spec fn side(&self) -> int {
        self.bounds as int
    }

    closed spec fn well_formed(&self) -> bool {
        0 <= self.bounds <= MAX_BOUNDS && self.cells@.len() == cube(self.bounds as int)
    }

    proof fn lemma_shape(&self) {
    }

    fn bounds(&self) -> (r: i32) {
        self.bounds
    }

    fn cell_count(&self) -> (r: usize) {
        self.cells.len()
    }

    fn cell(&self, index: usize) -> (c: SimpleCell) {
        self.cells[index]
    }

    fn set_cell(&mut self, index: usize, c: SimpleCell) {
        self.cells[index] = c;
    }
}

impl SingleThreaded {
    /// An empty simulation of side 0.
    pub fn new() -> (r: Self)
        ensures
            r.well_formed(),
            r.side() == 0,
            r.cells_view().len() == 0,
    {
        SingleThreaded { cells: Vec::new(), bounds: 0 }
    }

    /// The side length of the cube.
    pub fn get_bounds(&self) -> (r: i32)
        requires
            self.well_formed(),
        ensures
            r == self.side(),
    {
        self.bounds
    }

    /// Resizes the cube to side `new_bounds`, with every cell dead and every count 0; keeps
    /// the cells as they are when the side does not change. Returns the side now in effect.
    pub fn set_bounds(&mut self, new_bounds: i32) -> (r: i32)
        requires
            old(self).well_formed(),
            0 <= new_bounds <= MAX_BOUNDS,
        ensures
            final(self).well_formed(),
            r == new_bounds,
            final(self).side() == new_bounds,
            new_bounds != old(self).side() ==> final(self).cells_view() == zeroed(new_bounds as int),
            new_bounds == old(self).side() ==> final(self).cells_view() == old(self).cells_view(),
    {
        if new_bounds != self.bounds {
            proof {
                lemma_cube_bound(new_bounds as int);
                assert(0 <= new_bounds * new_bounds <= new_bounds * new_bounds * new_bounds
                    || new_bounds == 0) by (nonlinear_arith)
                    requires
                        0 <= new_bounds,
                ;
            }
            let total = (new_bounds * new_bounds * new_bounds) as usize;
            let mut cells: Vec<SimpleCell> = Vec::new();
            let mut i: usize = 0;
            while i < total
                invariant
                    i <= total,
                    total == cube(new_bounds as int),
                    cells@ =~= zeroed(new_bounds as int).take(i as int),
                decreases total - i,
            {
                cells.push(SimpleCell::new());
                i += 1;
            }
            self.cells = cells;
            self.bounds = new_bounds;
        }
        self.bounds
    }

    /// Clears the cube to all dead cells, keeping its side.
    pub fn reset(&mut self)
        requires
            old(self).well_formed(),
        ensures
            final(self).well_formed(),
            final(self).side() == old(self).side(),
            final(self).cells_view() == zeroed(old(self).side()),
            count_alive(final(self).cells_view()) == 0,
            forall|rule: Rule|
                rule.states >= 1 ==> #[trigger] valid_for(final(self).cells_view(), rule, final(self).side()),
    {
        let bounds = self.bounds;
        self.set_bounds(0);
        self.set_bounds(bounds);
        proof {
            lemma_cube_bound(bounds as int);
            if bounds == 0 {
                assert(self.cells_view() =~= zeroed(0));
            }
            lemma_zeroed_empty(bounds as int);
            assert forall|rule: Rule| rule.states >= 1 implies #[trigger] valid_for(
                self.cells_view(),
                rule,
                self.side(),
            ) by {
                lemma_zeroed_grid(bounds as int, rule);
            }
        }
    }

    /// Number of cells that are not dead.
    pub fn count_cells(&self) -> (r: usize)
        requires
            self.well_formed(),
        ensures
            r == count_alive(self.cells_view()),
    {
        count_cells(self)
    }

    /// Advances the simulation by one tick under `rule`.
    pub fn update(&mut self, rule: &Rule)
        requires
            old(self).well_formed(),
            rule.states >= 1,
            valid_for(old(self).cells_view(), *rule, old(self).side()),
        ensures
            final(self).well_formed(),
            final(self).side() == old(self).side(),
            final(self).cells_view() == step(old(self).cells_view(), *rule, old(self).side()),
            valid_for(final(self).cells_view(), *rule, final(self).side()),
    {
        step_grid(self, rule)
    }

    /// Whether every neighbour count equals the number of fully alive cells around it.
    pub fn validate(&self, rule: &Rule) -> (r: bool)
        requires
            self.well_formed(),
        ensures
            r == counts_consistent(self.cells_view(), *rule, self.side()),
    {
        validate(self, rule)
    }

    /// Seeds the cube from the given sample points (see `engine::spawn_cells`).
    pub fn spawn_cells(&mut self, rule: &Rule, samples: &Vec<IVec3>)
        requires
            old(self).well_formed(),
            old(self).side() > 0,
            rule.states >= 1,
            valid_for(old(self).cells_view(), *rule, old(self).side()),
        ensures
            final(self).well_formed(),
            final(self).side() == old(self).side(),
            valid_for(final(self).cells_view(), *rule, final(self).side()),
            forall|j: int|
                0 <= j < final(self).cells_view().len() ==> #[trigger] final(self).cells_view()[j].state
                    == seeded_state(
                    old(self).cells_view(),
                    samples@,
                    samples@.len() as int,
                    j,
                    rule.states,
                    old(self).side(),
                ),
    {
        spawn_cells(self, rule, samples)
    }

    /// Seeds random activity around the centre of the cube: `NOISE_AMOUNT` points drawn
    /// within `NOISE_RADIUS` of the centre, each bringing a dead cell to full life.
    pub fn spawn_noise(&mut self, rule: &Rule)
        requires
            old(self).well_formed(),
            old(self).side() > 0,
            rule.states >= 1,
            valid_for(old(self).cells_view(), *rule, old(self).side()),
        ensures
            final(self).well_formed(),
            final(self).side() == old(self).side(),
            valid_for(final(self).cells_view(), *rule, final(self).side()),
            exists|samples: Seq<IVec3>|
                {
                    &&& samples.len() == NOISE_AMOUNT
                    &&& forall|k: int|
                        0 <= k < samples.len() ==> within_radius(
                            #[trigger] samples[k],
                            IVec3 {
                                x: (old(self).side() / 2) as i32,
                                y: (old(self).side() / 2) as i32,
                                z: (old(self).side() / 2) as i32,
                            },
                            NOISE_RADIUS as int,
                        )
                    &&& forall|j: int|
                        0 <= j < final(self).cells_view().len()
                            ==> #[trigger] final(self).cells_view()[j].state == seeded_state(
                            old(self).cells_view(),
                            samples,
                            samples.len() as int,
                            j,
                            rule.states,
                            old(self).side(),
                        )
                },
    {
        let centre = get_centre(self.bounds);
        let samples = default_noise(centre);
        spawn_cells(self, rule, &samples);
        assert(centre == IVec3 {
            x: (old(self).side() / 2) as i32,
            y: (old(self).side() / 2) as i32,
            z: (old(self).side() / 2) as i32,
        });
    }

    /// Hands every cell's state and neighbour count, by flat index, to the renderer.
    pub fn render(&self, renderer: &mut CellRenderer)
        requires
            self.well_formed(),
        ensures
            final(renderer).values@ == states_of(self.cells_view()),
            final(renderer).neighbours@ == counts_of(self.cells_view()),
    {
        render_cells(self, renderer)
    }
}

} // verus!
