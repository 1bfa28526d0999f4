use crate::cell::SimpleCell;
use crate::neighbours::{lemma_offsets_symmetric, mirror_index, Neighbourhood};
use crate::rule::Rule;
use crate::utilities::{
    cube, index_of, lemma_index_injective, lemma_index_round_trip, lemma_position_round_trip,
    lemma_wrap_coord, lemma_wrap_mirror, pos_x, pos_y, pos_z, wrap_coord, IVec3, MAX_BOUNDS,
};
use vstd::prelude::*;

verus! {

/// Flat index of the cell reached from cell `i` by the offset `d`, wrapping around the cube.
pub open spec fn neighbour_index(i: int, d: IVec3, n: int) -> int {
    index_of(
        wrap_coord(pos_x(i, n) + d.x, n),
        wrap_coord(pos_y(i, n) + d.y, n),
        wrap_coord(pos_z(i, n) + d.z, n),
        n,
    )
}

/// 1 when the `k`-th offset leads from cell `i` to cell `j`, else 0.
pub open spec fn hit(i: int, j: int, offs: Seq<IVec3>, k: int, n: int) -> int {
    if neighbour_index(i, offs[k], n) == j {
        1
    } else {
        0
    }
}

/// How many of the first `k` offsets lead from cell `i` to cell `j`.
pub open spec fn hits(i: int, j: int, offs: Seq<IVec3>, k: int, n: int) -> int
    decreases k,
{
    if k <= 0 {
        0
    } else {
        hits(i, j, offs, k - 1, n) + hit(i, j, offs, k - 1, n)
    }
}

/// 1 when the `k`-th neighbour of cell `i` is marked in `alive`, else 0.
pub open spec fn live_term(alive: Seq<bool>, i: int, offs: Seq<IVec3>, k: int, n: int) -> int {
    if alive[neighbour_index(i, offs[k], n)] {
        1
    } else {
        0
    }
}

/// How many of the first `k` neighbours of cell `i` are marked in `alive`
/// (a neighbour reached by two offsets counts twice).
pub open spec fn live(alive: Seq<bool>, i: int, offs: Seq<IVec3>, k: int, n: int) -> int
    decreases k,
{
    if k <= 0 {
        0
    } else {
        live(alive, i, offs, k - 1, n) + live_term(alive, i, offs, k - 1, n)
    }
}

/// Which cells are fully alive, i.e. hold the state `full`.
pub open spec fn full_map(cells: Seq<SimpleCell>, full: u8) -> Seq<bool> {
    Seq::new(cells.len(), |j: int| cells[j].state == full)
}

/// Number of fully alive cells in the wrapped neighbourhood of cell `i`.
pub open spec fn live_neighbours(cells: Seq<SimpleCell>, i: int, rule: Rule, n: int) -> int {
    live(
        full_map(cells, rule.states),
        i,
        rule.neighbourhood.offsets(),
        rule.neighbourhood.offsets().len() as int,
        n,
    )
}

/// Every cell's neighbour count equals the number of fully alive cells around it.
pub open spec fn counts_consistent(cells: Seq<SimpleCell>, rule: Rule, n: int) -> bool {
    forall|i: int|
        0 <= i < cells.len() ==> #[trigger] cells[i].neighbours == live_neighbours(
            cells,
            i,
            rule,
            n,
        )
}

/// A grid of side `n` that is in a consistent state under `rule`: it holds `n³` cells,
/// no state exceeds `rule.states`, and every neighbour count is exact.
pub open spec fn valid_for(cells: Seq<SimpleCell>, rule: Rule, n: int) -> bool {
    &&& 0 <= n <= MAX_BOUNDS
    &&& cells.len() == cube(n)
    &&& forall|i: int| 0 <= i < cells.len() ==> #[trigger] cells[i].state <= rule.states
    &&& counts_consistent(cells, rule, n)
}

/// A dead cell with a neighbour count in the birth set comes alive this tick.
pub open spec fn is_spawn(c: SimpleCell, rule: Rule) -> bool {
    c.state == 0 && rule.birth.contains(c.neighbours as int)
}

/// A fully alive cell with a neighbour count outside the survival set begins to decay.
pub open spec fn is_death(c: SimpleCell, rule: Rule) -> bool {
    c.state == rule.states && !rule.survival.contains(c.neighbours as int)
}

/// The state a cell takes in the next tick, decided from its own state and count.
pub open spec fn next_state(c: SimpleCell, rule: Rule) -> u8 {
    if c.state == 0 {
        if rule.birth.contains(c.neighbours as int) {
            rule.states
        } else {
            0
        }
    } else if c.state < rule.states || !rule.survival.contains(c.neighbours as int) {
        (c.state - 1) as u8
    } else {
        c.state
    }
}

/// The grid after the decide phase: every state advanced, counts not yet touched.
pub open spec fn decide_all(cells: Seq<SimpleCell>, rule: Rule) -> Seq<SimpleCell> {
    Seq::new(
        cells.len(),
        |i: int| SimpleCell { state: next_state(cells[i], rule), neighbours: cells[i].neighbours },
    )
}

/// The grid one tick later: the decided states, with the counts that match them.
pub open spec fn step(cells: Seq<SimpleCell>, rule: Rule, n: int) -> Seq<SimpleCell> {
    let decided = decide_all(cells, rule);
    Seq::new(
        cells.len(),
        |i: int|
            SimpleCell {
                state: decided[i].state,
                neighbours: live_neighbours(decided, i, rule, n) as u8,
            },
    )
}

/// The grid after `k` ticks.
pub open spec fn run(cells: Seq<SimpleCell>, rule: Rule, n: int, k: nat) -> Seq<SimpleCell>
    decreases k,
{
    if k == 0 {
        cells
    } else {
        run(step(cells, rule, n), rule, n, (k - 1) as nat)
    }
}

/// Number of cells that are not dead.
pub open spec fn count_alive(cells: Seq<SimpleCell>) -> int
    decreases cells.len(),
{
    if cells.len() == 0 {
        0
    } else {
        count_alive(cells.drop_last()) + if cells.last().state != 0 {
            1int
        } else {
            0
        }
    }
}

/// Whether `s[u] == j` for some `u < t`.
pub open spec fn in_prefix(s: Seq<usize>, t: int, j: int) -> bool {
    exists|u: int| 0 <= u < t && s[u] == j
}

/// Whether cell `i` has a spawn event (`births`) or a death event (`!births`) this tick.
pub open spec fn event_at(cells: Seq<SimpleCell>, rule: Rule, births: bool, i: int) -> bool {
    if births {
        is_spawn(cells[i], rule)
    } else {
        is_death(cells[i], rule)
    }
}

/// `s` lists, in increasing order, exactly the cells with an event of the given kind.
pub open spec fn lists_events(s: Seq<usize>, cells: Seq<SimpleCell>, rule: Rule, births: bool) -> bool {
    &&& forall|a: int, b: int| 0 <= a < b < s.len() ==> s[a] < s[b]
    &&& forall|u: int|
        0 <= u < s.len() ==> #[trigger] s[u] < cells.len() && event_at(cells, rule, births, s[u] as int)
    &&& forall|i: int|
        0 <= i < cells.len() && #[trigger] event_at(cells, rule, births, i) ==> in_prefix(
            s,
            s.len() as int,
            i,
        )
}

pub proof fn lemma_cube_bound(n: int)
    requires
        0 <= n <= MAX_BOUNDS,
    ensures
        0 <= cube(n) <= 2146689000,
{
    assert(0 <= n * n * n <= 1290 * 1290 * 1290) by (nonlinear_arith)
        requires
            0 <= n <= 1290,
    ;
}

/// A neighbour of an in-range cell is an in-range cell.
pub proof fn lemma_neighbour_in_range(i: int, d: IVec3, n: int)
    requires
        n > 0,
        0 <= i < cube(n),
    ensures
        0 <= neighbour_index(i, d, n) < cube(n),
{
    lemma_index_round_trip(i, n);
    lemma_wrap_coord(pos_x(i, n) + d.x, n);
    lemma_wrap_coord(pos_y(i, n) + d.y, n);
    lemma_wrap_coord(pos_z(i, n) + d.z, n);
    lemma_position_round_trip(
        wrap_coord(pos_x(i, n) + d.x, n),
        wrap_coord(pos_y(i, n) + d.y, n),
        wrap_coord(pos_z(i, n) + d.z, n),
        n,
    );
}

/// If `d` leads from `j` to `i`, then `-d` leads from `i` to `j`.
pub proof fn lemma_neighbour_mirror(i: int, j: int, d: IVec3, e: IVec3, n: int)
    requires
        n > 0,
        0 <= i < cube(n),
        0 <= j < cube(n),
        e.x == -d.x,
        e.y == -d.y,
        e.z == -d.z,
        neighbour_index(j, d, n) == i,
    ensures
        neighbour_index(i, e, n) == j,
{
    lemma_index_round_trip(i, n);
    lemma_index_round_trip(j, n);
    let wx = wrap_coord(pos_x(j, n) + d.x, n);
    let wy = wrap_coord(pos_y(j, n) + d.y, n);
    let wz = wrap_coord(pos_z(j, n) + d.z, n);
    lemma_wrap_coord(pos_x(j, n) + d.x, n);
    lemma_wrap_coord(pos_y(j, n) + d.y, n);
    lemma_wrap_coord(pos_z(j, n) + d.z, n);
    lemma_index_injective((wx, wy, wz), (pos_x(i, n), pos_y(i, n), pos_z(i, n)), n);
    lemma_wrap_mirror(pos_x(j, n), pos_x(i, n), d.x as int, n);
    lemma_wrap_mirror(pos_y(j, n), pos_y(i, n), d.y as int, n);
    lemma_wrap_mirror(pos_z(j, n), pos_z(i, n), d.z as int, n);
}

/// The `k`-th offset leads from `j` to `i` exactly when its mirror leads from `i` to `j`.
proof fn lemma_hit_mirror(i: int, j: int, nh: Neighbourhood, k: int, n: int)
    requires
        n > 0,
        0 <= i < cube(n),
        0 <= j < cube(n),
        0 <= k < nh.offsets().len(),
    ensures
        hit(j, i, nh.offsets(), k, n) == hit(i, j, nh.offsets(), mirror_index(nh, k), n),
{
    lemma_offsets_symmetric(nh);
    let offs = nh.offsets();
    let m = mirror_index(nh, k);
    assert(offs[k] == offs[k]);
    assert(offs[m] == offs[m]);
    if neighbour_index(j, offs[k], n) == i {
        lemma_neighbour_mirror(i, j, offs[k], offs[m], n);
    }
    if neighbour_index(i, offs[m], n) == j {
        lemma_neighbour_mirror(j, i, offs[m], offs[k], n);
    }
}

proof fn lemma_hits_symmetric_von_neumann(i: int, j: int, n: int)
    requires
        n > 0,
        0 <= i < cube(n),
        0 <= j < cube(n),
    ensures
        ({
            let offs = Neighbourhood::VonNeumann.offsets();
            hits(i, j, offs, 6, n) == hits(j, i, offs, 6, n)
        }),
{
    let nh = Neighbourhood::VonNeumann;
    let offs = nh.offsets();
    assert forall|k: int| 0 <= k < 6 implies #[trigger] hit(j, i, offs, k, n) == hit(
        i,
        j,
        offs,
        mirror_index(nh, k),
        n,
    ) by {
        lemma_hit_mirror(i, j, nh, k, n);
    }
    reveal_with_fuel(hits, 7);
}

#[verifier::rlimit(50)]
proof fn lemma_hits_symmetric_moore(i: int, j: int, n: int)
    requires
        n > 0,
        0 <= i < cube(n),
        0 <= j < cube(n),
    ensures
        ({
            let offs = Neighbourhood::Moore.offsets();
            hits(i, j, offs, 26, n) == hits(j, i, offs, 26, n)
        }),
{
    let nh = Neighbourhood::Moore;
    let offs = nh.offsets();
    assert forall|k: int| 0 <= k < 26 implies #[trigger] hit(j, i, offs, k, n) == hit(
        i,
        j,
        offs,
        25 - k,
        n,
    ) by {
        lemma_hit_mirror(i, j, nh, k, n);
    }
    reveal_with_fuel(hits, 27);
}

/// As many offsets lead from `i` to `j` as from `j` to `i`.
pub proof fn lemma_hits_symmetric(i: int, j: int, nh: Neighbourhood, n: int)
    requires
        n > 0,
        0 <= i < cube(n),
        0 <= j < cube(n),
    ensures
        hits(i, j, nh.offsets(), nh.offsets().len() as int, n) == hits(
            j,
            i,
            nh.offsets(),
            nh.offsets().len() as int,
            n,
        ),
{
    match nh {
        Neighbourhood::VonNeumann => lemma_hits_symmetric_von_neumann(i, j, n),
        Neighbourhood::Moore => lemma_hits_symmetric_moore(i, j, n),
    }
}

pub proof fn lemma_hits_bounds(i: int, j: int, offs: Seq<IVec3>, k: int, m: int, n: int)
    requires
        0 <= k <= m,
    ensures
        0 <= hits(i, j, offs, k, n) <= hits(i, j, offs, m, n) <= m,
    decreases m,
{
    if k < m {
        lemma_hits_bounds(i, j, offs, k, m - 1, n);
    } else if m > 0 {
        lemma_hits_bounds(i, j, offs, k - 1, m - 1, n);
    }
}

pub proof fn lemma_live_bounds(alive: Seq<bool>, i: int, offs: Seq<IVec3>, k: int, n: int)
    requires
        0 <= k,
    ensures
        0 <= live(alive, i, offs, k, n) <= k,
    decreases k,
{
    if k > 0 {
        lemma_live_bounds(alive, i, offs, k - 1, n);
    }
}

/// Marking cell `e` alive adds to the count of `i` once per offset leading from `i` to `e`.
pub proof fn lemma_live_set(alive: Seq<bool>, e: int, v: bool, i: int, offs: Seq<IVec3>, k: int, n: int)
    requires
        n > 0,
        alive.len() == cube(n),
        0 <= i < cube(n),
        0 <= e < cube(n),
        alive[e] != v,
        0 <= k,
    ensures
        live(alive.update(e, v), i, offs, k, n) == live(alive, i, offs, k, n) + (if v {
            1int
        } else {
            -1int
        }) * hits(i, e, offs, k, n),
        !v ==> hits(i, e, offs, k, n) <= live(alive, i, offs, k, n),
    decreases k,
{
    if k > 0 {
        lemma_live_set(alive, e, v, i, offs, k - 1, n);
        lemma_neighbour_in_range(i, offs[k - 1], n);
    }
}

/// After the decide phase a cell is fully alive exactly when it was fully alive and did not
/// start to decay, or it was born.
pub proof fn lemma_full_after_decide(c: SimpleCell, rule: Rule)
    requires
        rule.states >= 1,
        c.state <= rule.states,
    ensures
        (next_state(c, rule) == rule.states) == ((c.state == rule.states && !is_death(c, rule))
            || is_spawn(c, rule)),
        is_spawn(c, rule) ==> c.state != rule.states,
        next_state(c, rule) <= rule.states,
{
}

/// One tick keeps a grid consistent: if every neighbour count was exact before, it is
/// exact after, and no state exceeds the rule's `states`.
pub proof fn lemma_step_preserves_invariant(cells: Seq<SimpleCell>, rule: Rule, n: int)
    requires
        valid_for(cells, rule, n),
        rule.states >= 1,
    ensures
        valid_for(step(cells, rule, n), rule, n),
{
    let dec = decide_all(cells, rule);
    let next = step(cells, rule, n);
    assert(full_map(next, rule.states) =~= full_map(dec, rule.states));
    assert forall|i: int| 0 <= i < next.len() implies #[trigger] next[i].state <= rule.states by {
        lemma_full_after_decide(cells[i], rule);
    }
    assert forall|i: int| 0 <= i < next.len() implies #[trigger] next[i].neighbours
        == live_neighbours(next, i, rule, n) by {
        lemma_live_bounds(
            full_map(dec, rule.states),
            i,
            rule.neighbourhood.offsets(),
            rule.neighbourhood.offsets().len() as int,
            n,
        );
        lemma_offsets_symmetric(rule.neighbourhood);
    }
}

/// Every tick keeps a grid consistent, however many ticks are run.
pub proof fn lemma_run_preserves_invariant(cells: Seq<SimpleCell>, rule: Rule, n: int, k: nat)
    requires
        valid_for(cells, rule, n),
        rule.states >= 1,
    ensures
        valid_for(run(cells, rule, n, k), rule, n),
    decreases k,
{
    if k > 0 {
        lemma_step_preserves_invariant(cells, rule, n);
        lemma_run_preserves_invariant(step(cells, rule, n), rule, n, (k - 1) as nat);
    }
}

/// Two grids that start equal under the same rule are equal after any number of ticks.
pub proof fn lemma_run_deterministic(
    a: Seq<SimpleCell>,
    b: Seq<SimpleCell>,
    rule: Rule,
    n: int,
    k: nat,
)
    requires
        a == b,
    ensures
        run(a, rule, n, k) == run(b, rule, n, k),
{
}

/// A grid of side `n` with every cell dead and every count 0.
pub open spec fn zeroed(n: int) -> Seq<SimpleCell> {
    Seq::new(cube(n) as nat, |i: int| SimpleCell { state: 0, neighbours: 0 })
}

proof fn lemma_live_none(alive: Seq<bool>, i: int, offs: Seq<IVec3>, k: int, n: int)
    requires
        n > 0,
        0 <= i < cube(n),
        alive.len() == cube(n),
        forall|j: int| 0 <= j < alive.len() ==> !#[trigger] alive[j],
    ensures
        live(alive, i, offs, k, n) == 0,
    decreases k,
{
    if k > 0 {
        lemma_live_none(alive, i, offs, k - 1, n);
        lemma_neighbour_in_range(i, offs[k - 1], n);
    }
}

proof fn lemma_count_alive_none(cells: Seq<SimpleCell>)
    requires
        forall|j: int| 0 <= j < cells.len() ==> #[trigger] cells[j].state == 0,
    ensures
        count_alive(cells) == 0,
    decreases cells.len(),
{
    if cells.len() > 0 {
        lemma_count_alive_none(cells.drop_last());
    }
}

/// A freshly allocated grid of side `n` holds exactly `n³` cells, none of them alive.
pub proof fn lemma_zeroed_empty(n: int)
    requires
        0 <= n,
    ensures
        zeroed(n).len() == cube(n),
        count_alive(zeroed(n)) == 0,
{
    assert(cube(n) >= 0) by (nonlinear_arith)
        requires
            0 <= n,
    ;
    lemma_count_alive_none(zeroed(n));
}

/// A freshly allocated grid of side `n` holds exactly `n³` cells, none of them alive, and
/// is consistent under every rule.
pub proof fn lemma_zeroed_grid(n: int, rule: Rule)
    requires
        0 <= n <= MAX_BOUNDS,
        rule.states >= 1,
    ensures
        zeroed(n).len() == cube(n),
        count_alive(zeroed(n)) == 0,
        valid_for(zeroed(n), rule, n),
{
    let z = zeroed(n);
    lemma_cube_bound(n);
    lemma_count_alive_none(z);
    if n > 0 {
        assert forall|i: int| 0 <= i < z.len() implies #[trigger] z[i].neighbours
            == live_neighbours(z, i, rule, n) by {
            lemma_live_none(
                full_map(z, rule.states),
                i,
                rule.neighbourhood.offsets(),
                rule.neighbourhood.offsets().len() as int,
                n,
            );
        }
    }
}

/// The cells reached from cell `i` by the offsets of a neighbourhood, wrapping around.
pub open spec fn wrapped_neighbourhood(i: int, nh: Neighbourhood, n: int) -> Set<int> {
    Set::new(
        |q: int|
            exists|k: int| 0 <= k < nh.offsets().len() && neighbour_index(i, nh.offsets()[k], n) == q,
    )
}

/// The cells reached by the first `k` offsets that are marked in `alive`.
spec fn reached_alive(alive: Seq<bool>, i: int, offs: Seq<IVec3>, k: int, n: int) -> Set<int> {
    Set::new(|q: int| exists|t: int| 0 <= t < k && neighbour_index(i, offs[t], n) == q && alive[q])
}

proof fn lemma_wrap_small_step(x: int, a: int, n: int)
    requires
        n >= 3,
        0 <= x < n,
        -1 <= a <= 1,
    ensures
        wrap_coord(x + a, n) == if x + a < 0 {
            n - 1
        } else if x + a >= n {
            0
        } else {
            x + a
        },
{
    lemma_wrap_coord(x + a, n);
    if x + a < 0 {
        vstd::arithmetic::div_mod::lemma_fundamental_div_mod_converse(x + a, n, -1, n - 1);
    } else if x + a >= n {
        vstd::arithmetic::div_mod::lemma_fundamental_div_mod_converse(x + a, n, 1, 0);
    } else {
        vstd::arithmetic::div_mod::lemma_fundamental_div_mod_converse(x + a, n, 0, x + a);
    }
}

/// On a cube of side at least 3, distinct offsets of a neighbourhood reach distinct cells.
proof fn lemma_neighbours_distinct(i: int, nh: Neighbourhood, k1: int, k2: int, n: int)
    requires
        n >= 3,
        0 <= i < cube(n),
        0 <= k1 < nh.offsets().len(),
        0 <= k2 < nh.offsets().len(),
        k1 != k2,
    ensures
        neighbour_index(i, nh.offsets()[k1], n) != neighbour_index(i, nh.offsets()[k2], n),
{
    lemma_offsets_symmetric(nh);
    let offs = nh.offsets();
    let d1 = offs[k1];
    let d2 = offs[k2];
    assert(d1 != d2);
    lemma_index_round_trip(i, n);
    let (x, y, z) = (pos_x(i, n), pos_y(i, n), pos_z(i, n));
    lemma_wrap_small_step(x, d1.x as int, n);
    lemma_wrap_small_step(y, d1.y as int, n);
    lemma_wrap_small_step(z, d1.z as int, n);
    lemma_wrap_small_step(x, d2.x as int, n);
    lemma_wrap_small_step(y, d2.y as int, n);
    lemma_wrap_small_step(z, d2.z as int, n);
    if neighbour_index(i, d1, n) == neighbour_index(i, d2, n) {
        lemma_index_injective(
            (wrap_coord(x + d1.x, n), wrap_coord(y + d1.y, n), wrap_coord(z + d1.z, n)),
            (wrap_coord(x + d2.x, n), wrap_coord(y + d2.y, n), wrap_coord(z + d2.z, n)),
            n,
        );
    }
}

proof fn lemma_live_is_set_size(alive: Seq<bool>, i: int, nh: Neighbourhood, k: int, n: int)
    requires
        n >= 3,
        0 <= i < cube(n),
        alive.len() == cube(n),
        0 <= k <= nh.offsets().len(),
    ensures
        reached_alive(alive, i, nh.offsets(), k, n).finite(),
        live(alive, i, nh.offsets(), k, n) == reached_alive(alive, i, nh.offsets(), k, n).len(),
    decreases k,
{
    let offs = nh.offsets();
    if k == 0 {
        assert(reached_alive(alive, i, offs, 0, n) =~= Set::<int>::empty());
    } else {
        lemma_live_is_set_size(alive, i, nh, k - 1, n);
        let prev = reached_alive(alive, i, offs, k - 1, n);
        let cur = reached_alive(alive, i, offs, k, n);
        let q = neighbour_index(i, offs[k - 1], n);
        assert(!prev.contains(q)) by {
            if prev.contains(q) {
                let t = choose|t: int|
                    0 <= t < k - 1 && neighbour_index(i, offs[t], n) == q && alive[q];
                lemma_neighbours_distinct(i, nh, t, k - 1, n);
            }
        }
        if alive[q] {
            assert(cur =~= prev.insert(q));
        } else {
            assert(cur =~= prev);
        }
    }
}

/// On a cube of side at least 3, in a consistent grid every cell's neighbour count is the
/// number of cells of its wrapped neighbourhood that are fully alive. (On smaller cubes two
/// offsets can reach the same cell, and the count counts that cell once per offset.)
pub proof fn lemma_counts_are_neighbourhood_sizes(cells: Seq<SimpleCell>, rule: Rule, n: int, i: int)
    requires
        valid_for(cells, rule, n),
        n >= 3,
        0 <= i < cells.len(),
    ensures
        cells[i].neighbours == wrapped_neighbourhood(i, rule.neighbourhood, n).filter(
            |q: int| cells[q].state == rule.states,
        ).len(),
{
    let nh = rule.neighbourhood;
    let offs = nh.offsets();
    let alive = full_map(cells, rule.states);
    lemma_live_is_set_size(alive, i, nh, offs.len() as int, n);
    let target = wrapped_neighbourhood(i, nh, n).filter(|q: int| cells[q].state == rule.states);
    assert forall|q: int| target.contains(q) == reached_alive(alive, i, offs, offs.len() as int, n).contains(q) by {
        if target.contains(q) {
            let k = choose|k: int| 0 <= k < offs.len() && neighbour_index(i, offs[k], n) == q;
            lemma_neighbour_in_range(i, offs[k], n);
        }
        if reached_alive(alive, i, offs, offs.len() as int, n).contains(q) {
            let t = choose|t: int|
                0 <= t < offs.len() && neighbour_index(i, offs[t], n) == q && alive[q];
            lemma_neighbour_in_range(i, offs[t], n);
        }
    }
    assert(target =~= reached_alive(alive, i, offs, offs.len() as int, n));
}

} // verus!
