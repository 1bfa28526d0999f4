use cellular_automata::cell::{is_dead, SimpleCell};
use cellular_automata::colour_method::ColourMethod;
use cellular_automata::engine::{get_at, CellStore};
use cellular_automata::multi_dimensional::{MultiDimensional, Position};
use cellular_automata::multi_threaded::{Chunk, MultiThreaded, ParallelCell};
use cellular_automata::neighbours::Neighbourhood;
use cellular_automata::render::CellRenderer;
use cellular_automata::rule::{Rule, Value};
use cellular_automata::single_threaded::SingleThreaded;
use cellular_automata::utilities::{
    default_noise, generate_noise, get_centre, idx_to_pos, ivec3, pos_to_idx, wrap, IVec3,
    NOISE_AMOUNT, NOISE_RADIUS,
};

fn rule(birth: &[u8], survival: &[u8], neighbourhood: Neighbourhood, states: u8) -> Rule {
    Rule { birth: Value::new(birth), survival: Value::new(survival), neighbourhood, states }
}

fn plus_shape() -> Vec<IVec3> {
    vec![ivec3(1, 1, 1), ivec3(0, 1, 1), ivec3(2, 1, 1), ivec3(1, 0, 1), ivec3(1, 2, 1)]
}

fn in_plus(x: i32, y: i32, z: i32) -> bool {
    z == 1 && (x == 1 || y == 1)
}

// Von Neumann count of plus cells around (x, y, z) on a cube of side 3, worked out by hand:
// the centre sees four arms, each arm sees the centre and the opposite arm, a corner of the
// plane sees two arms, and a cell above or below the plus sees the plus cell under it.
fn plus_count(x: i32, y: i32, z: i32) -> u8 {
    if in_plus(x, y, z) {
        if x == 1 && y == 1 {
            4
        } else {
            2
        }
    } else if z == 1 {
        2
    } else if x == 1 || y == 1 {
        1
    } else {
        0
    }
}

#[test]
fn scenario_plus_on_three_cube_initial_counts() {
    let r = rule(&[3], &[], Neighbourhood::VonNeumann, 2);
    let mut sim = SingleThreaded::new();
    sim.set_bounds(3);
    sim.spawn_cells(&r, &plus_shape());
    assert_eq!(sim.count_cells(), 5);
    for z in 0..3 {
        for y in 0..3 {
            for x in 0..3 {
                let c = get_at(&sim, ivec3(x, y, z));
                assert_eq!(c.state, if in_plus(x, y, z) { 2 } else { 0 });
                assert_eq!(c.neighbours, plus_count(x, y, z));
            }
        }
    }
}

#[test]
fn scenario_plus_on_three_cube_one_tick() {
    let r = rule(&[3], &[], Neighbourhood::VonNeumann, 2);
    let mut sim = SingleThreaded::new();
    sim.set_bounds(3);
    sim.spawn_cells(&r, &plus_shape());
    sim.update(&r);
    // No dead cell sees exactly 3 plus cells, so nothing is born; every plus cell fails the
    // empty survival set and starts to decay, so no cell is fully alive any more.
    for z in 0..3 {
        for y in 0..3 {
            for x in 0..3 {
                let c = get_at(&sim, ivec3(x, y, z));
                assert_eq!(c.state, if in_plus(x, y, z) { 1 } else { 0 });
                assert_eq!(c.neighbours, 0);
            }
        }
    }
    assert_eq!(sim.count_cells(), 5);
    assert!(sim.validate(&r));
}

#[test]
fn scenario_plus_on_three_cube_centre_survives() {
    let r = rule(&[3], &[4], Neighbourhood::VonNeumann, 2);
    let mut sim = SingleThreaded::new();
    sim.set_bounds(3);
    sim.spawn_cells(&r, &plus_shape());
    sim.update(&r);
    for z in 0..3 {
        for y in 0..3 {
            for x in 0..3 {
                let c = get_at(&sim, ivec3(x, y, z));
                let centre = x == 1 && y == 1 && z == 1;
                let expected_state = if centre {
                    2
                } else if in_plus(x, y, z) {
                    1
                } else {
                    0
                };
                let touches_centre =
                    (x - 1).abs() + (y - 1).abs() + (z - 1).abs() == 1;
                assert_eq!(c.state, expected_state);
                assert_eq!(c.neighbours, if touches_centre { 1 } else { 0 });
            }
        }
    }
    assert!(sim.validate(&r));
}

#[test]
fn scenario_lone_full_cell_decays() {
    let r = rule(&[], &[], Neighbourhood::Moore, 3);
    let mut sim = SingleThreaded::new();
    sim.set_bounds(5);
    sim.spawn_cells(&r, &vec![ivec3(2, 2, 2)]);
    let centre = get_at(&sim, ivec3(2, 2, 2));
    assert_eq!(centre.state, 3);
    assert_eq!(centre.neighbours, 0);
    assert_eq!(get_at(&sim, ivec3(1, 1, 1)).neighbours, 1);
    assert_eq!(get_at(&sim, ivec3(3, 2, 1)).neighbours, 1);
    assert_eq!(get_at(&sim, ivec3(0, 2, 2)).neighbours, 0);
    sim.update(&r);
    assert_eq!(get_at(&sim, ivec3(2, 2, 2)).state, 2);
    for i in 0..125 {
        assert_eq!(sim.cell(i).neighbours, 0);
    }
    sim.update(&r);
    assert_eq!(get_at(&sim, ivec3(2, 2, 2)).state, 1);
    sim.update(&r);
    assert_eq!(get_at(&sim, ivec3(2, 2, 2)).state, 0);
    assert_eq!(sim.count_cells(), 0);
}

#[test]
fn scenario_lone_full_cell_dies_with_one_state() {
    let r = rule(&[], &[], Neighbourhood::VonNeumann, 1);
    let mut sim = SingleThreaded::new();
    sim.set_bounds(4);
    sim.spawn_cells(&r, &vec![ivec3(1, 2, 3)]);
    assert_eq!(get_at(&sim, ivec3(2, 2, 3)).neighbours, 1);
    assert_eq!(get_at(&sim, ivec3(1, 2, 0)).neighbours, 1);
    sim.update(&r);
    assert_eq!(get_at(&sim, ivec3(1, 2, 3)).state, 0);
    assert_eq!(get_at(&sim, ivec3(2, 2, 3)).neighbours, 0);
    assert_eq!(get_at(&sim, ivec3(1, 2, 0)).neighbours, 0);
    assert_eq!(sim.count_cells(), 0);
}

#[test]
fn counts_stay_exact_over_many_ticks() {
    let r = Rule {
        birth: Value::from_range(4..=4),
        survival: Value::from_range(4..=5),
        neighbourhood: Neighbourhood::Moore,
        states: 5,
    };
    let mut sim = SingleThreaded::new();
    sim.set_bounds(20);
    sim.spawn_noise(&r);
    assert!(sim.validate(&r));
    for _ in 0..15 {
        sim.update(&r);
        assert!(sim.validate(&r));
    }
}

#[test]
fn validate_detects_a_wrong_count() {
    let r = rule(&[4], &[4], Neighbourhood::Moore, 2);
    let mut sim = SingleThreaded::new();
    sim.set_bounds(6);
    sim.spawn_cells(&r, &vec![ivec3(3, 3, 3)]);
    assert!(sim.validate(&r));
    let mut c = sim.cell(0);
    c.neighbours = 7;
    sim.set_cell(0, c);
    assert!(!sim.validate(&r));
}

#[test]
fn reset_empties_the_grid() {
    let r = rule(&[4], &[4], Neighbourhood::Moore, 5);
    let mut sim = SingleThreaded::new();
    sim.set_bounds(12);
    sim.spawn_noise(&r);
    assert!(sim.count_cells() > 0);
    sim.reset();
    assert_eq!(sim.count_cells(), 0);
    assert_eq!(sim.get_bounds(), 12);
    assert_eq!(sim.cell_count(), 1728);
}

#[test]
fn resize_allocates_cube_of_dead_cells() {
    let r = rule(&[4], &[4], Neighbourhood::Moore, 5);
    let mut sim = SingleThreaded::new();
    sim.set_bounds(9);
    sim.spawn_noise(&r);
    assert_eq!(sim.set_bounds(7), 7);
    assert_eq!(sim.count_cells(), 0);
    assert_eq!(sim.cell_count(), 343);
    let mut nested = MultiDimensional::new();
    assert_eq!(nested.set_bounds(6), 6);
    assert_eq!(nested.get_count(), 0);
    assert_eq!(nested.cell_count(), 216);
    let mut chunked = MultiThreaded::new();
    assert_eq!(chunked.set_bounds(5), 5);
    assert_eq!(chunked.get_count(), 0);
    assert_eq!(chunked.cell_count(), 125);
}

#[test]
fn same_bounds_keeps_cells() {
    let r = rule(&[4], &[4], Neighbourhood::Moore, 5);
    let mut sim = SingleThreaded::new();
    sim.set_bounds(8);
    sim.spawn_cells(&r, &vec![ivec3(1, 1, 1), ivec3(5, 5, 5)]);
    assert_eq!(sim.set_bounds(8), 8);
    assert_eq!(sim.count_cells(), 2);
}

#[test]
fn wrap_lands_inside_and_composes() {
    for n in 1..6 {
        for x in -2 * n..3 * n {
            let p = ivec3(x, -x, x + 1);
            let w = wrap(p, n);
            assert!(0 <= w.x && w.x < n && 0 <= w.y && w.y < n && 0 <= w.z && w.z < n);
            for d in [-1, 0, 1] {
                let a = wrap(ivec3(w.x + d, w.y - d, w.z + d), n);
                let b = wrap(ivec3(p.x + d, p.y - d, p.z + d), n);
                assert_eq!(a, b);
            }
        }
    }
    assert_eq!(wrap(ivec3(-7, 7, 0), 3), ivec3(2, 1, 0));
}

#[test]
fn index_round_trip_on_whole_cube() {
    for n in 1..8 {
        for i in 0..n * n * n {
            assert_eq!(pos_to_idx(idx_to_pos(i, n), n), i as usize);
        }
    }
    assert_eq!(idx_to_pos(26, 3), ivec3(2, 2, 2));
    assert_eq!(idx_to_pos(5, 3), ivec3(2, 1, 0));
}

fn states(renderer: &CellRenderer) -> (Vec<u8>, Vec<u8>) {
    (renderer.values.clone(), renderer.neighbours.clone())
}

#[test]
fn identical_grids_stay_identical() {
    let r = rule(&[4], &[3, 4, 5], Neighbourhood::Moore, 4);
    let samples = default_noise(ivec3(7, 7, 7));
    assert_eq!(samples.len(), NOISE_AMOUNT);
    let mut a = SingleThreaded::new();
    let mut b = SingleThreaded::new();
    a.set_bounds(14);
    b.set_bounds(14);
    a.spawn_cells(&r, &samples);
    b.spawn_cells(&r, &samples);
    for _ in 0..8 {
        a.update(&r);
        b.update(&r);
    }
    let mut ra = CellRenderer::new();
    let mut rb = CellRenderer::new();
    a.render(&mut ra);
    b.render(&mut rb);
    assert_eq!(states(&ra), states(&rb));
    assert_eq!(ra.cell_count(), 2744);
}

#[test]
fn storage_layouts_agree() {
    let r = rule(&[4], &[4, 5], Neighbourhood::Moore, 3);
    let samples = generate_noise(ivec3(5, 5, 5), 4, 300);
    let mut flat = SingleThreaded::new();
    let mut nested = MultiDimensional::new();
    let mut chunked = MultiThreaded::new();
    flat.set_bounds(11);
    nested.set_bounds(11);
    chunked.set_bounds(11);
    flat.spawn_cells(&r, &samples);
    nested.spawn_cells(&r, &samples);
    chunked.spawn_cells(&r, &samples);
    for _ in 0..6 {
        flat.update(&r);
        nested.update(&r);
        chunked.update(&r);
        let mut rf = CellRenderer::new();
        let mut rn = CellRenderer::new();
        let mut rc = CellRenderer::new();
        flat.render(&mut rf);
        nested.render(&mut rn);
        chunked.render(&mut rc);
        assert_eq!(states(&rf), states(&rn));
        assert_eq!(states(&rf), states(&rc));
        assert!(chunked.validate(&r));
        assert!(nested.validate(&r));
    }
    assert_eq!(flat.count_cells(), chunked.get_count());
}

#[test]
fn chunk_decide_lists_events() {
    let mut chunk = Chunk::new(3);
    assert_eq!(chunk.set_bounds(4), 4);
    assert_eq!(chunk.get_bounds(), 4);
    assert_eq!(chunk.len(), 0);
    let r = rule(&[0], &[], Neighbourhood::VonNeumann, 2);
    let mut spawns = vec![];
    let mut deaths = vec![];
    assert_eq!(
        MultiThreaded::update_values(&mut chunk, &r, &mut spawns, &mut deaths, 40),
        3
    );
    assert!(spawns.is_empty() && deaths.is_empty());
}

#[test]
fn chunked_noise_keeps_counts_exact() {
    let r = rule(&[4], &[4, 5], Neighbourhood::Moore, 6);
    let mut chunked = MultiThreaded::new();
    chunked.set_bounds(16);
    assert_eq!(chunked.get_centre(), ivec3(8, 8, 8));
    chunked.spawn_noise(&r);
    assert!(chunked.get_count() > 0);
    assert!(chunked.validate(&r));
    chunked.update(&r);
    assert!(chunked.validate(&r));
    chunked.reset();
    assert_eq!(chunked.get_count(), 0);
    assert_eq!(chunked.get_bounds(), 16);
}

#[test]
fn nested_noise_and_reset() {
    let r = rule(&[5], &[5, 6], Neighbourhood::Moore, 3);
    let mut nested = MultiDimensional::new();
    nested.set_bounds(15);
    nested.spawn_noise(&r);
    assert!(nested.get_count() > 0);
    assert!(nested.validate(&r));
    nested.update(&r);
    assert!(nested.validate(&r));
    nested.reset();
    assert_eq!(nested.get_count(), 0);
    assert_eq!(nested.get_bounds(), 15);
}

#[test]
fn noise_stays_near_the_centre() {
    let centre = get_centre(30);
    let samples = default_noise(centre);
    assert_eq!(samples.len(), NOISE_AMOUNT);
    for p in &samples {
        assert!((p.x - 15).abs() <= NOISE_RADIUS);
        assert!((p.y - 15).abs() <= NOISE_RADIUS);
        assert!((p.z - 15).abs() <= NOISE_RADIUS);
    }
    let distinct: std::collections::HashSet<IVec3> = samples.iter().cloned().collect();
    assert!(distinct.len() > 1);
    let r = rule(&[4], &[4], Neighbourhood::Moore, 2);
    let mut sim = SingleThreaded::new();
    sim.set_bounds(30);
    sim.spawn_noise(&r);
    let alive = sim.count_cells();
    assert!(alive > 0 && alive <= NOISE_AMOUNT);
    for i in 0..27000 {
        let c = sim.cell(i);
        if !c.is_dead() {
            let p = idx_to_pos(i as i32, 30);
            assert!((p.x - 15).abs() <= NOISE_RADIUS);
            assert_eq!(c.state, 2);
        }
    }
}

#[test]
fn noise_on_small_grid_wraps() {
    let r = rule(&[4], &[4], Neighbourhood::VonNeumann, 2);
    let mut sim = SingleThreaded::new();
    sim.set_bounds(2);
    sim.spawn_noise(&r);
    assert!(sim.count_cells() > 0);
    assert!(sim.validate(&r));
}

#[test]
fn from_range_of_empty_range_is_empty() {
    let value = Value::from_range(5..=3);
    for k in 0..27 {
        assert!(!value.get_value(k));
    }
    let full = Value::from_range(0..=26);
    for k in 0..27 {
        assert!(full.get_value(k));
    }
    assert!(!full.is_valid(27));
    assert!(!full.is_valid(200));
}

#[test]
fn value_and_rule_equality() {
    let a = Value::new(&[2, 3]);
    let b = Value::from_range(2..=3);
    assert!(a.equals(&b));
    assert_eq!(a, b);
    assert_ne!(a, a.change_value(4));
    let r1 = rule(&[2, 3], &[4], Neighbourhood::Moore, 3);
    let r2 = rule(&[2, 3], &[4], Neighbourhood::Moore, 3);
    let r3 = rule(&[2, 3], &[4], Neighbourhood::VonNeumann, 3);
    assert!(r1.equals(&r2));
    assert_eq!(r1, r2);
    assert_ne!(r1, r3);
}

#[test]
fn cells_and_positions() {
    assert!(is_dead(0));
    assert!(!is_dead(4));
    assert!(SimpleCell::new().dead());
    let mut p = ParallelCell::new();
    assert!(p.is_dead());
    assert_eq!(p.set_state(3), 3);
    assert_eq!(p.get_state(), 3);
    assert_eq!(p.get_neighbours(), 0);
    assert!(!p.is_dead());
    assert_eq!(Position::new(1, 2, 3), Position::from_vec(ivec3(1, 2, 3)));
    assert_ne!(ColourMethod::State, ColourMethod::Index);
    assert_eq!(IVec3::new(1, 2, 3), ivec3(1, 2, 3));
}
