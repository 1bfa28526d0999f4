use crate::cell::SimpleCell;
use crate::model::{
    count_alive, counts_consistent, decide_all, event_at, full_map, hits, in_prefix, is_death,
    is_spawn, lemma_cube_bound, lemma_full_after_decide, lemma_hits_bounds,
    lemma_hits_symmetric, lemma_live_bounds, lemma_live_set, lemma_step_preserves_invariant,
    lists_events, live, live_neighbours, neighbour_index, step, valid_for,
};
use crate::render::{counts_of, states_of, CellRenderer};
use crate::rule::Rule;
use crate::utilities::{
    cube, idx_to_pos, index_of, ivec3, lemma_index_round_trip, lemma_position_round_trip,
    pos_to_idx, pos_x, pos_y, pos_z, wrap, wrap_coord, IVec3, MAX_BOUNDS,
};
use crate::neighbours::lemma_offsets_symmetric;
use vstd::prelude::*;

verus! {

/// Storage of the cells of a cube, seen as one flat sequence indexed by `pos_to_idx`.
pub trait CellStore {
    /// The cells, in flat index order.
    spec fn cells_view(&self) -> Seq<SimpleCell>;

    /// The side length of the cube.
    spec fn side(&self) -> int;

    /// The storage has the shape its side length asks for.
    spec fn well_formed(&self) -> bool;

    proof fn lemma_shape(&self)
        requires
            self.well_formed(),
        ensures
            self.cells_view().len() == cube(self.side()),
            0 <= self.side() <= MAX_BOUNDS,
    ;

    /// The side length of the cube.
    fn bounds(&self) -> (r: i32)
        requires
            self.well_formed(),
        ensures
            r == self.side(),
    ;

    /// The number of cells held.
    fn cell_count(&self) -> (r: usize)
        requires
            self.well_formed(),
        ensures
            r == self.cells_view().len(),
    ;

    /// The cell at a flat index.
    fn cell(&self, index: usize) -> (c: SimpleCell)
        requires
            self.well_formed(),
            index < self.cells_view().len(),
        ensures
            c == self.cells_view()[index as int],
    ;

    /// Overwrites the cell at a flat index.
    fn set_cell(&mut self, index: usize, c: SimpleCell)
        requires
            old(self).well_formed(),
            index < old(self).cells_view().len(),
        ensures
            final(self).well_formed(),
            final(self).side() == old(self).side(),
            final(self).cells_view() == old(self).cells_view().update(index as int, c),
    ;
}

/// Flat index of the point `p` once wrapped into the cube.
pub open spec fn sample_index(p: IVec3, n: int) -> int {
    index_of(wrap_coord(p.x as int, n), wrap_coord(p.y as int, n), wrap_coord(p.z as int, n), n)
}

/// The state of cell `j` after seeding with the first `t` samples: a dead cell that one of
/// them lands on becomes fully alive; every other cell keeps its state.
pub open spec fn seeded_state(
    cells: Seq<SimpleCell>,
    samples: Seq<IVec3>,
    t: int,
    j: int,
    full: u8,
    n: int,
) -> u8 {
    if cells[j].state == 0 && exists|k: int| 0 <= k < t && #[trigger] sample_index(samples[k], n) == j {
        full
    } else {
        cells[j].state
    }
}

/// Adds 1 to (or takes 1 from) the neighbour count of every wrapped neighbour of the cell at
/// `index`, once per offset.
pub fn update_neighbours<G: CellStore>(
    grid: &mut G,
    rule: &Rule,
    offsets: &Vec<IVec3>,
    index: usize,
    inc: bool,
)
    requires
        old(grid).well_formed(),
        old(grid).side() > 0,
        offsets@ == rule.neighbourhood.offsets(),
        index < old(grid).cells_view().len(),
        inc ==> forall|j: int|
            0 <= j < old(grid).cells_view().len() ==> #[trigger] old(grid).cells_view()[j].neighbours
                + hits(index as int, j, offsets@, offsets@.len() as int, old(grid).side()) <= 255,
        !inc ==> forall|j: int|
            0 <= j < old(grid).cells_view().len() ==> #[trigger] old(grid).cells_view()[j].neighbours
                >= hits(index as int, j, offsets@, offsets@.len() as int, old(grid).side()),
    ensures
        final(grid).well_formed(),
        final(grid).side() == old(grid).side(),
        final(grid).cells_view().len() == old(grid).cells_view().len(),
        forall|j: int|
            #![trigger final(grid).cells_view()[j]]
            0 <= j < final(grid).cells_view().len() ==> {
                let h = hits(index as int, j, offsets@, offsets@.len() as int, old(grid).side());
                &&& final(grid).cells_view()[j].state == old(grid).cells_view()[j].state
                &&& final(grid).cells_view()[j].neighbours == if inc {
                    old(grid).cells_view()[j].neighbours + h
                } else {
                    old(grid).cells_view()[j].neighbours - h
                }
            },
{
    let ghost before = grid.cells_view();
    let ghost n = grid.side();
    let ghost offs = offsets@;
    let ghost len_offs = offs.len() as int;
    proof {
        grid.lemma_shape();
        lemma_cube_bound(n);
        lemma_offsets_symmetric(rule.neighbourhood);
    }
    let bounds = grid.bounds();
    let pos = idx_to_pos(index as i32, bounds);
    proof {
        lemma_index_round_trip(index as int, n);
    }
    let mut k: usize = 0;
    while k < offsets.len()
        invariant
            k <= offs.len(),
            offs == offsets@,
            offs == rule.neighbourhood.offsets(),
            len_offs == offs.len(),
            n == bounds,
            n == grid.side(),
            0 < n <= MAX_BOUNDS,
            cube(n) <= 2146689000,
            grid.well_formed(),
            index < before.len(),
            before.len() == cube(n),
            grid.cells_view().len() == before.len(),
            pos.x == pos_x(index as int, n),
            pos.y == pos_y(index as int, n),
            pos.z == pos_z(index as int, n),
            0 <= pos.x < n,
            0 <= pos.y < n,
            0 <= pos.z < n,
            forall|q: int|
                0 <= q < offs.len() ==> {
                    let d = #[trigger] offs[q];
                    -1 <= d.x <= 1 && -1 <= d.y <= 1 && -1 <= d.z <= 1
                },
            inc ==> forall|j: int|
                0 <= j < before.len() ==> #[trigger] before[j].neighbours + hits(
                    index as int,
                    j,
                    offs,
                    len_offs,
                    n,
                ) <= 255,
            !inc ==> forall|j: int|
                0 <= j < before.len() ==> #[trigger] before[j].neighbours >= hits(
                    index as int,
                    j,
                    offs,
                    len_offs,
                    n,
                ),
            forall|j: int|
                #![trigger grid.cells_view()[j]]
                0 <= j < before.len() ==> {
                    let h = hits(index as int, j, offs, k as int, n);
                    &&& grid.cells_view()[j].state == before[j].state
                    &&& grid.cells_view()[j].neighbours == if inc {
                        before[j].neighbours + h
                    } else {
                        before[j].neighbours - h
                    }
                },
        decreases offs.len() - k,
    {
        let d = offsets[k];
        assert(offs[k as int] == d);
        let moved = ivec3(pos.x + d.x, pos.y + d.y, pos.z + d.z);
        let wrapped = wrap(moved, bounds);
        proof {
            lemma_position_round_trip(wrapped.x as int, wrapped.y as int, wrapped.z as int, n);
        }
        let target = pos_to_idx(wrapped, bounds);
        assert(target == neighbour_index(index as int, d, n));
        proof {
            lemma_hits_bounds(index as int, target as int, offs, k + 1, len_offs, n);
        }
        let mut c = grid.cell(target);
        assert(grid.cells_view()[target as int].state == before[target as int].state);
        assert(hits(index as int, target as int, offs, k + 1, n) == hits(
            index as int,
            target as int,
            offs,
            k as int,
            n,
        ) + 1);
        assert(before[target as int].neighbours == before[target as int].neighbours);
        if inc {
            c.neighbours = c.neighbours + 1;
        } else {
            c.neighbours = c.neighbours - 1;
        }
        let ghost prev = grid.cells_view();
        grid.set_cell(target, c);
        proof {
            assert forall|j: int| 0 <= j < before.len() implies {
                let h = hits(index as int, j, offs, k + 1, n);
                &&& #[trigger] grid.cells_view()[j].state == before[j].state
                &&& grid.cells_view()[j].neighbours == if inc {
                    before[j].neighbours + h
                } else {
                    before[j].neighbours - h
                }
            } by {
                assert(prev[j] == prev[j]);
                assert(offs[k as int] == d);
            }
        }
        k += 1;
    }
}

/// The decide phase: advances every cell's state from the counts as they stand, without
/// touching any count, and lists the cells that were born and those that began to decay.
pub fn decide<G: CellStore>(grid: &mut G, rule: &Rule) -> (r: (Vec<usize>, Vec<usize>))
    requires
        old(grid).well_formed(),
        rule.states >= 1,
    ensures
        final(grid).well_formed(),
        final(grid).side() == old(grid).side(),
        final(grid).cells_view() == decide_all(old(grid).cells_view(), *rule),
        lists_events(r.0@, old(grid).cells_view(), *rule, true),
        lists_events(r.1@, old(grid).cells_view(), *rule, false),
{
    let ghost before = grid.cells_view();
    proof {
        grid.lemma_shape();
        lemma_cube_bound(grid.side());
    }
    let total = grid.cell_count();
    let mut spawns: Vec<usize> = Vec::new();
    let mut deaths: Vec<usize> = Vec::new();
    let mut i: usize = 0;
    assert(total == grid.cells_view().len());
    while i < total
        invariant
            i <= total,
            rule.states >= 1,
            total == before.len(),
            grid.well_formed(),
            grid.side() == old(grid).side(),
            before == old(grid).cells_view(),
            grid.cells_view().len() == total,
            forall|j: int|
                0 <= j < i ==> #[trigger] grid.cells_view()[j] == decide_all(before, *rule)[j],
            forall|j: int| i <= j < total ==> #[trigger] grid.cells_view()[j] == before[j],
            forall|a: int, b: int| 0 <= a < b < spawns@.len() ==> spawns@[a] < spawns@[b],
            forall|u: int|
                0 <= u < spawns@.len() ==> #[trigger] spawns@[u] < i && is_spawn(
                    before[spawns@[u] as int],
                    *rule,
                ),
            forall|j: int|
                0 <= j < i && #[trigger] is_spawn(before[j], *rule) ==> in_prefix(
                    spawns@,
                    spawns@.len() as int,
                    j,
                ),
            forall|a: int, b: int| 0 <= a < b < deaths@.len() ==> deaths@[a] < deaths@[b],
            forall|u: int|
                0 <= u < deaths@.len() ==> #[trigger] deaths@[u] < i && is_death(
                    before[deaths@[u] as int],
                    *rule,
                ),
            forall|j: int|
                0 <= j < i && #[trigger] is_death(before[j], *rule) ==> in_prefix(
                    deaths@,
                    deaths@.len() as int,
                    j,
                ),
        decreases total - i,
    {
        let mut cell = grid.cell(i);
        let ghost c0 = cell;
        let ghost sp0 = spawns@;
        let ghost de0 = deaths@;
        if cell.is_dead() {
            if rule.birth.is_valid(cell.neighbours) {
                cell.state = rule.states;
                spawns.push(i);
            }
        } else {
            if cell.state < rule.states || !rule.survival.is_valid(cell.neighbours) {
                if cell.state == rule.states {
                    deaths.push(i);
                }
                cell.state = cell.state - 1;
            }
        }
        grid.set_cell(i, cell);
        proof {
            assert(cell == decide_all(before, *rule)[i as int]);
            assert forall|j: int|
                0 <= j < i + 1 && #[trigger] is_spawn(before[j], *rule) implies in_prefix(
                spawns@,
                spawns@.len() as int,
                j,
            ) by {
                if j == i {
                    assert(spawns@[spawns@.len() - 1] == j);
                } else {
                    let u = choose|u: int| 0 <= u < sp0.len() && sp0[u] == j;
                    assert(spawns@[u] == j);
                }
            }
            assert forall|j: int|
                0 <= j < i + 1 && #[trigger] is_death(before[j], *rule) implies in_prefix(
                deaths@,
                deaths@.len() as int,
                j,
            ) by {
                if j == i {
                    assert(deaths@[deaths@.len() - 1] == j);
                } else {
                    let u = choose|u: int| 0 <= u < de0.len() && de0[u] == j;
                    assert(deaths@[u] == j);
                }
            }
        }
        i += 1;
    }
    assert(grid.cells_view() =~= decide_all(before, *rule));
    assert forall|j: int| 0 <= j < total && #[trigger] event_at(before, *rule, true, j) implies in_prefix(
        spawns@,
        spawns@.len() as int,
        j,
    ) by {
        assert(is_spawn(before[j], *rule));
    }
    assert forall|j: int| 0 <= j < total && #[trigger] event_at(before, *rule, false, j) implies in_prefix(
        deaths@,
        deaths@.len() as int,
        j,
    ) by {
        assert(is_death(before[j], *rule));
    }
    (spawns, deaths)
}

/// The apply phase: for each listed spawn adds 1, and for each listed death takes 1, from
/// the count of every wrapped neighbour, so that the counts match the decided states.
pub fn apply_events<G: CellStore>(
    grid: &mut G,
    rule: &Rule,
    spawns: &Vec<usize>,
    deaths: &Vec<usize>,
    Ghost(base): Ghost<Seq<SimpleCell>>,
)
    requires
        old(grid).well_formed(),
        rule.states >= 1,
        valid_for(base, *rule, old(grid).side()),
        old(grid).cells_view() == decide_all(base, *rule),
        lists_events(spawns@, base, *rule, true),
        lists_events(deaths@, base, *rule, false),
    ensures
        final(grid).well_formed(),
        final(grid).side() == old(grid).side(),
        final(grid).cells_view() == step(base, *rule, old(grid).side()),
{
    let ghost n = grid.side();
    let ghost nh = rule.neighbourhood;
    let ghost offs = nh.offsets();
    let ghost kk = offs.len() as int;
    let ghost full0 = full_map(base, rule.states);
    let ghost dec = decide_all(base, *rule);
    let offsets = rule.neighbourhood.get_neighbourhood_iter();
    proof {
        grid.lemma_shape();
        lemma_offsets_symmetric(nh);
    }
    let ghost mut alive: Seq<bool> = full0;
    let mut t: usize = 0;
    while t < spawns.len()
        invariant
            grid.well_formed(),
            grid.side() == n,
            0 <= n,
            offsets@ == offs,
            offs == nh.offsets(),
            nh == rule.neighbourhood,
            kk == offs.len(),
            rule.states >= 1,
            valid_for(base, *rule, n),
            full0 == full_map(base, rule.states),
            dec == decide_all(base, *rule),
            lists_events(spawns@, base, *rule, true),
            grid.cells_view().len() == base.len(),
            alive.len() == base.len(),
            t <= spawns@.len(),
            forall|j: int|
                #![trigger grid.cells_view()[j]]
                0 <= j < base.len() ==> grid.cells_view()[j].state == dec[j].state
                    && grid.cells_view()[j].neighbours == live(alive, j, offs, kk, n),
            forall|j: int|
                0 <= j < base.len() ==> #[trigger] alive[j] == (full0[j] || in_prefix(
                    spawns@,
                    t as int,
                    j,
                )),
        decreases spawns@.len() - t,
    {
        let e = spawns[t];
        proof {
            assert(event_at(base, *rule, true, e as int));
            assert(!alive[e as int]) by {
                if in_prefix(spawns@, t as int, e as int) {
                    let u = choose|u: int| 0 <= u < t && spawns@[u] == e;
                }
            }
            assert forall|j: int| 0 <= j < grid.cells_view().len() implies #[trigger] grid.cells_view()[j].neighbours
                + hits(e as int, j, offsets@, offsets@.len() as int, grid.side()) <= 255 by {
                lemma_live_set(alive, e as int, true, j, offs, kk, n);
                lemma_hits_symmetric(e as int, j, nh, n);
                lemma_live_bounds(alive.update(e as int, true), j, offs, kk, n);
            }
        }
        update_neighbours(grid, rule, &offsets, e, true);
        proof {
            let next_alive = alive.update(e as int, true);
            assert forall|j: int| 0 <= j < base.len() implies #[trigger] grid.cells_view()[j].neighbours
                == live(next_alive, j, offs, kk, n) by {
                lemma_live_set(alive, e as int, true, j, offs, kk, n);
                lemma_hits_symmetric(e as int, j, nh, n);
            }
            assert forall|j: int| 0 <= j < base.len() implies #[trigger] next_alive[j] == (full0[j]
                || in_prefix(spawns@, t + 1, j)) by {
                if in_prefix(spawns@, t as int, j) {
                    let u = choose|u: int| 0 <= u < t && spawns@[u] == j;
                    assert(spawns@[u] == j);
                }
                if in_prefix(spawns@, t + 1, j) {
                    let u = choose|u: int| 0 <= u < t + 1 && spawns@[u] == j;
                    if u < t {
                        assert(in_prefix(spawns@, t as int, j));
                    }
                }
                if j == e {
                    assert(spawns@[t as int] == j);
                }
            }
            alive = next_alive;
        }
        t += 1;
    }
    proof {
        assert forall|j: int| 0 <= j < base.len() implies #[trigger] alive[j] == (full0[j]
            || is_spawn(base[j], *rule)) by {
            if in_prefix(spawns@, spawns@.len() as int, j) {
                let u = choose|u: int| 0 <= u < spawns@.len() && spawns@[u] == j;
                assert(event_at(base, *rule, true, spawns@[u] as int));
            }
            if is_spawn(base[j], *rule) {
                assert(event_at(base, *rule, true, j));
            }
        }
    }
    let mut t: usize = 0;
    while t < deaths.len()
        invariant
            grid.well_formed(),
            grid.side() == n,
            0 <= n,
            offsets@ == offs,
            offs == nh.offsets(),
            nh == rule.neighbourhood,
            kk == offs.len(),
            rule.states >= 1,
            valid_for(base, *rule, n),
            full0 == full_map(base, rule.states),
            dec == decide_all(base, *rule),
            lists_events(deaths@, base, *rule, false),
            grid.cells_view().len() == base.len(),
            alive.len() == base.len(),
            t <= deaths@.len(),
            forall|j: int|
                #![trigger grid.cells_view()[j]]
                0 <= j < base.len() ==> grid.cells_view()[j].state == dec[j].state
                    && grid.cells_view()[j].neighbours == live(alive, j, offs, kk, n),
            forall|j: int|
                0 <= j < base.len() ==> #[trigger] alive[j] == ((full0[j] || is_spawn(
                    base[j],
                    *rule,
                )) && !in_prefix(deaths@, t as int, j)),
        decreases deaths@.len() - t,
    {
        let e = deaths[t];
        proof {
            assert(event_at(base, *rule, false, e as int));
            assert(alive[e as int]) by {
                if in_prefix(deaths@, t as int, e as int) {
                    let u = choose|u: int| 0 <= u < t && deaths@[u] == e;
                }
            }
            assert forall|j: int| 0 <= j < grid.cells_view().len() implies #[trigger] grid.cells_view()[j].neighbours
                >= hits(e as int, j, offsets@, offsets@.len() as int, grid.side()) by {
                lemma_live_set(alive, e as int, false, j, offs, kk, n);
                lemma_hits_symmetric(e as int, j, nh, n);
            }
        }
        update_neighbours(grid, rule, &offsets, e, false);
        proof {
            let next_alive = alive.update(e as int, false);
            assert forall|j: int| 0 <= j < base.len() implies #[trigger] grid.cells_view()[j].neighbours
                == live(next_alive, j, offs, kk, n) by {
                lemma_live_set(alive, e as int, false, j, offs, kk, n);
                lemma_hits_symmetric(e as int, j, nh, n);
            }
            assert forall|j: int| 0 <= j < base.len() implies #[trigger] next_alive[j] == ((full0[j]
                || is_spawn(base[j], *rule)) && !in_prefix(deaths@, t + 1, j)) by {
                if in_prefix(deaths@, t as int, j) {
                    let u = choose|u: int| 0 <= u < t && deaths@[u] == j;
                    assert(deaths@[u] == j);
                }
                if in_prefix(deaths@, t + 1, j) {
                    let u = choose|u: int| 0 <= u < t + 1 && deaths@[u] == j;
                    if u < t {
                        assert(in_prefix(deaths@, t as int, j));
                    }
                }
                if j == e {
                    assert(deaths@[t as int] == j);
                }
            }
            alive = next_alive;
        }
        t += 1;
    }
    proof {
        let full1 = full_map(dec, rule.states);
        assert forall|j: int| 0 <= j < base.len() implies #[trigger] alive[j] == full1[j] by {
            lemma_full_after_decide(base[j], *rule);
            if in_prefix(deaths@, deaths@.len() as int, j) {
                let u = choose|u: int| 0 <= u < deaths@.len() && deaths@[u] == j;
                assert(event_at(base, *rule, false, deaths@[u] as int));
            }
            if is_death(base[j], *rule) {
                assert(event_at(base, *rule, false, j));
            }
        }
        assert(alive =~= full1);
        let target = step(base, *rule, n);
        assert forall|j: int| 0 <= j < base.len() implies #[trigger] grid.cells_view()[j] == target[j] by {
            lemma_live_bounds(full1, j, offs, kk, n);
            assert(grid.cells_view()[j].neighbours == live(full1, j, offs, kk, n));
        }
        assert(grid.cells_view() =~= target);
    }
}

/// Advances the grid by one tick: decide every cell from the counts as they stand, then
/// apply the spawn and death events to the counts.
pub fn step_grid<G: CellStore>(grid: &mut G, rule: &Rule)
    requires
        old(grid).well_formed(),
        rule.states >= 1,
        valid_for(old(grid).cells_view(), *rule, old(grid).side()),
    ensures
        final(grid).well_formed(),
        final(grid).side() == old(grid).side(),
        final(grid).cells_view() == step(old(grid).cells_view(), *rule, old(grid).side()),
        valid_for(final(grid).cells_view(), *rule, final(grid).side()),
{
    let ghost base = grid.cells_view();
    let (spawns, deaths) = decide(grid, rule);
    apply_events(grid, rule, &spawns, &deaths, Ghost(base));
    proof {
        lemma_step_preserves_invariant(base, *rule, grid.side());
    }
}

/// Seeds the grid: for each sample in turn, a dead cell at the wrapped sample position becomes
/// fully alive and its neighbours' counts go up as for a spawn; a sample that lands on a live
/// cell changes nothing.
pub fn spawn_cells<G: CellStore>(grid: &mut G, rule: &Rule, samples: &Vec<IVec3>)
    requires
        old(grid).well_formed(),
        old(grid).side() > 0,
        rule.states >= 1,
        valid_for(old(grid).cells_view(), *rule, old(grid).side()),
    ensures
        final(grid).well_formed(),
        final(grid).side() == old(grid).side(),
        valid_for(final(grid).cells_view(), *rule, final(grid).side()),
        forall|j: int|
            0 <= j < final(grid).cells_view().len() ==> #[trigger] final(grid).cells_view()[j].state
                == seeded_state(
                old(grid).cells_view(),
                samples@,
                samples@.len() as int,
                j,
                rule.states,
                old(grid).side(),
            ),
{
    let ghost before = grid.cells_view();
    let ghost n = grid.side();
    let ghost nh = rule.neighbourhood;
    let ghost offs = nh.offsets();
    let ghost kk = offs.len() as int;
    proof {
        grid.lemma_shape();
        lemma_cube_bound(n);
        lemma_offsets_symmetric(nh);
    }
    let offsets = rule.neighbourhood.get_neighbourhood_iter();
    let bounds = grid.bounds();
    let mut t: usize = 0;
    while t < samples.len()
        invariant
            grid.well_formed(),
            grid.side() == n,
            n == bounds,
            0 < n <= MAX_BOUNDS,
            cube(n) <= 2146689000,
            offsets@ == offs,
            offs == nh.offsets(),
            nh == rule.neighbourhood,
            kk == offs.len(),
            rule.states >= 1,
            before.len() == cube(n),
            valid_for(grid.cells_view(), *rule, n),
            t <= samples@.len(),
            forall|j: int|
                0 <= j < before.len() ==> #[trigger] grid.cells_view()[j].state == seeded_state(
                    before,
                    samples@,
                    t as int,
                    j,
                    rule.states,
                    n,
                ),
        decreases samples@.len() - t,
    {
        let p = samples[t];
        let w = wrap(p, bounds);
        proof {
            lemma_position_round_trip(w.x as int, w.y as int, w.z as int, n);
        }
        let idx = pos_to_idx(w, bounds);
        assert(idx == sample_index(samples@[t as int], n));
        let ghost prev = grid.cells_view();
        let mut c = grid.cell(idx);
        if c.is_dead() {
            c.state = rule.states;
            grid.set_cell(idx, c);
            let ghost mid = grid.cells_view();
            proof {
                let a = full_map(prev, rule.states);
                assert(full_map(mid, rule.states) =~= a.update(idx as int, true));
                assert forall|j: int| 0 <= j < mid.len() implies #[trigger] mid[j].neighbours + hits(
                    idx as int,
                    j,
                    offsets@,
                    offsets@.len() as int,
                    n,
                ) <= 255 by {
                    assert(prev[j].neighbours == live_neighbours(prev, j, *rule, n));
                    lemma_live_set(a, idx as int, true, j, offs, kk, n);
                    lemma_hits_symmetric(idx as int, j, nh, n);
                    lemma_live_bounds(a.update(idx as int, true), j, offs, kk, n);
                }
            }
            update_neighbours(grid, rule, &offsets, idx, true);
            proof {
                let a = full_map(prev, rule.states);
                let fin = grid.cells_view();
                assert(full_map(fin, rule.states) =~= a.update(idx as int, true));
                assert forall|j: int| 0 <= j < fin.len() implies #[trigger] fin[j].neighbours
                    == live_neighbours(fin, j, *rule, n) by {
                    assert(prev[j].neighbours == live_neighbours(prev, j, *rule, n));
                    lemma_live_set(a, idx as int, true, j, offs, kk, n);
                    lemma_hits_symmetric(idx as int, j, nh, n);
                }
                assert forall|j: int| 0 <= j < fin.len() implies #[trigger] fin[j].state
                    <= rule.states by {
                    assert(prev[j].state <= rule.states);
                }
            }
        }
        proof {
            let cur = grid.cells_view();
            assert forall|j: int| 0 <= j < before.len() implies #[trigger] cur[j].state
                == seeded_state(before, samples@, t + 1, j, rule.states, n) by {
                assert(prev[j].state == seeded_state(before, samples@, t as int, j, rule.states, n));
                if exists|k: int| 0 <= k < t && #[trigger] sample_index(samples@[k], n) == j {
                    let k = choose|k: int| 0 <= k < t && #[trigger] sample_index(samples@[k], n) == j;
                    assert(0 <= k < t + 1 && sample_index(samples@[k], n) == j);
                }
                if exists|k: int| 0 <= k < t + 1 && #[trigger] sample_index(samples@[k], n) == j {
                    let k = choose|k: int| 0 <= k < t + 1 && #[trigger] sample_index(samples@[k], n) == j;
                    if k < t {
                        assert(0 <= k < t && sample_index(samples@[k], n) == j);
                    }
                }
                if j == idx {
                    assert(0 <= t < t + 1 && sample_index(samples@[t as int], n) == j);
                }
            }
        }
        t += 1;
    }
}

/// Number of cells that are not dead.
pub fn count_cells<G: CellStore>(grid: &G) -> (r: usize)
    requires
        grid.well_formed(),
    ensures
        r == count_alive(grid.cells_view()),
{
    let ghost cells = grid.cells_view();
    let total = grid.cell_count();
    let mut result: usize = 0;
    let mut i: usize = 0;
    while i < total
        invariant
            i <= total,
            total == cells.len(),
            cells == grid.cells_view(),
            grid.well_formed(),
            result == count_alive(cells.take(i as int)),
            result <= i,
        decreases total - i,
    {
        let c = grid.cell(i);
        assert(cells.take(i + 1).drop_last() =~= cells.take(i as int));
        if !c.is_dead() {
            result += 1;
        }
        i += 1;
    }
    assert(cells.take(total as int) =~= cells);
    result
}

/// Recounts the fully alive neighbours of every cell and checks each stored count against
/// the recount.
pub fn validate<G: CellStore>(grid: &G, rule: &Rule) -> (r: bool)
    requires
        grid.well_formed(),
    ensures
        r == counts_consistent(grid.cells_view(), *rule, grid.side()),
{
    let ghost cells = grid.cells_view();
    let ghost n = grid.side();
    let ghost nh = rule.neighbourhood;
    let ghost offs = nh.offsets();
    let ghost kk = offs.len() as int;
    let ghost alive = full_map(cells, rule.states);
    proof {
        grid.lemma_shape();
        lemma_cube_bound(n);
        lemma_offsets_symmetric(nh);
    }
    let total = grid.cell_count();
    if total == 0 {
        return true;
    }
    let bounds = grid.bounds();
    assert(n > 0) by (nonlinear_arith)
        requires
            n >= 0,
            total > 0,
            total == n * n * n,
    ;
    let offsets = rule.neighbourhood.get_neighbourhood_iter();
    let mut i: usize = 0;
    while i < total
        invariant
            i <= total,
            total == cells.len(),
            cells == grid.cells_view(),
            grid.well_formed(),
            n == bounds,
            n == grid.side(),
            0 < n <= MAX_BOUNDS,
            cube(n) <= 2146689000,
            cells.len() == cube(n),
            offsets@ == offs,
            offs == nh.offsets(),
            nh == rule.neighbourhood,
            kk == offs.len(),
            kk <= 26,
            alive == full_map(cells, rule.states),
            forall|q: int|
                0 <= q < offs.len() ==> {
                    let d = #[trigger] offs[q];
                    -1 <= d.x <= 1 && -1 <= d.y <= 1 && -1 <= d.z <= 1
                },
            forall|j: int|
                0 <= j < i ==> #[trigger] cells[j].neighbours == live_neighbours(cells, j, *rule, n),
        decreases total - i,
    {
        let pos = idx_to_pos(i as i32, bounds);
        proof {
            lemma_index_round_trip(i as int, n);
        }
        let mut count: u8 = 0;
        let mut k: usize = 0;
        while k < offsets.len()
            invariant
                k <= kk,
                i < total,
                total == cells.len(),
                cells == grid.cells_view(),
                grid.well_formed(),
                n == bounds,
                0 < n <= MAX_BOUNDS,
                cube(n) <= 2146689000,
                cells.len() == cube(n),
                offsets@ == offs,
                kk == offs.len(),
                kk <= 26,
                alive == full_map(cells, rule.states),
                pos.x == pos_x(i as int, n),
                pos.y == pos_y(i as int, n),
                pos.z == pos_z(i as int, n),
                0 <= pos.x < n,
                0 <= pos.y < n,
                0 <= pos.z < n,
                forall|q: int|
                    0 <= q < offs.len() ==> {
                        let d = #[trigger] offs[q];
                        -1 <= d.x <= 1 && -1 <= d.y <= 1 && -1 <= d.z <= 1
                    },
                count == live(alive, i as int, offs, k as int, n),
                count <= k,
            decreases kk - k,
        {
            let d = offsets[k];
            assert(offs[k as int] == d);
            let wrapped = wrap(ivec3(pos.x + d.x, pos.y + d.y, pos.z + d.z), bounds);
            proof {
                lemma_position_round_trip(wrapped.x as int, wrapped.y as int, wrapped.z as int, n);
            }
            let target = pos_to_idx(wrapped, bounds);
            assert(target == neighbour_index(i as int, d, n));
            if grid.cell(target).state == rule.states {
                count += 1;
            }
            k += 1;
        }
        if grid.cell(i).neighbours != count {
            return false;
        }
        i += 1;
    }
    true
}

/// Hands every cell's state and neighbour count, in flat index order, to the renderer.
pub fn render_cells<G: CellStore>(grid: &G, renderer: &mut CellRenderer)
    requires
        grid.well_formed(),
    ensures
        final(renderer).values@ == states_of(grid.cells_view()),
        final(renderer).neighbours@ == counts_of(grid.cells_view()),
{
    let ghost cells = grid.cells_view();
    let total = grid.cell_count();
    let mut values: Vec<u8> = Vec::new();
    let mut neighbours: Vec<u8> = Vec::new();
    let mut i: usize = 0;
    while i < total
        invariant
            i <= total,
            total == cells.len(),
            cells == grid.cells_view(),
            grid.well_formed(),
            values@ =~= states_of(cells).take(i as int),
            neighbours@ =~= counts_of(cells).take(i as int),
        decreases total - i,
    {
        let c = grid.cell(i);
        values.push(c.state);
        neighbours.push(c.neighbours);
        i += 1;
    }
    assert(values@ =~= states_of(cells));
    assert(neighbours@ =~= counts_of(cells));
    renderer.values = values;
    renderer.neighbours = neighbours;
}

/// The cell at an in-range position.
pub fn get_at<G: CellStore>(grid: &G, position: IVec3) -> (c: SimpleCell)
    requires
        grid.well_formed(),
        0 <= position.x < grid.side(),
        0 <= position.y < grid.side(),
        0 <= position.z < grid.side(),
    ensures
        c == grid.cells_view()[index_of(
            position.x as int,
            position.y as int,
            position.z as int,
            grid.side(),
        )],
{
    proof {
        grid.lemma_shape();
        lemma_cube_bound(grid.side());
        lemma_position_round_trip(position.x as int, position.y as int, position.z as int, grid.side());
    }
    let index = pos_to_idx(position, grid.bounds());
    grid.cell(index)
}

/// Overwrites the cell at an in-range position. Nothing else changes, so the neighbour counts
/// are the caller's to keep consistent.
pub fn set_at<G: CellStore>(grid: &mut G, position: IVec3, cell: SimpleCell)
    requires
        old(grid).well_formed(),
        0 <= position.x < old(grid).side(),
        0 <= position.y < old(grid).side(),
        0 <= position.z < old(grid).side(),
    ensures
        final(grid).well_formed(),
        final(grid).side() == old(grid).side(),
        final(grid).cells_view() == old(grid).cells_view().update(
            index_of(position.x as int, position.y as int, position.z as int, old(grid).side()),
            cell,
        ),
{
    proof {
        grid.lemma_shape();
        lemma_cube_bound(grid.side());
        lemma_position_round_trip(position.x as int, position.y as int, position.z as int, grid.side());
    }
    let index = pos_to_idx(position, grid.bounds());
    grid.set_cell(index, cell);
}

} // verus!
