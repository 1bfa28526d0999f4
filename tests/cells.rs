use cellular_automata::cell::SimpleCell;
use cellular_automata::engine::{set_at, CellStore};
use cellular_automata::multi_dimensional::MultiDimensional;
use cellular_automata::neighbours::Neighbourhood;
use cellular_automata::rule::{Rule, Value};
use cellular_automata::single_threaded::SingleThreaded;
use cellular_automata::utilities::{
    generate_noise, get_centre, idx_to_pos, ivec3, pos_to_idx, wrap, IVec3,
};

#[test]
fn multi_dimensional_test_count_cells() {
    let cells = vec![
        vec![
            vec![
                SimpleCell { state: 5, neighbours: 0 },
                SimpleCell { state: 1, neighbours: 0 },
            ],
            vec![
                SimpleCell { state: 0, neighbours: 0 },
                SimpleCell { state: 1, neighbours: 0 },
            ],
        ],
        vec![
            vec![
                SimpleCell { state: 2, neighbours: 0 },
                SimpleCell { state: 1, neighbours: 0 },
            ],
            vec![
                SimpleCell { state: 0, neighbours: 0 },
                SimpleCell { state: 1, neighbours: 0 },
            ],
        ],
    ];

    let bounds: usize = 2;

    let mut multi_dimensional = MultiDimensional::new();
    multi_dimensional.set_bounds(bounds as i32);
    for x in 0..bounds {
        for y in 0..bounds {
            for z in 0..bounds {
                set_at(
                    &mut multi_dimensional,
                    ivec3(x as i32, y as i32, z as i32),
                    cells[x][y][z],
                );
            }
        }
    }

    // Validate there are two dead cells in the grid
    assert_eq!(multi_dimensional.get_count(), 6);
}

#[test]
fn test_is_dead() {
    let cell = SimpleCell { state: 0, neighbours: 0 };
    assert!(cell.is_dead());

    let cell = SimpleCell { state: 1, neighbours: 0 };
    assert!(!cell.is_dead());
}

#[test]
fn test_set_bounds() {
    let mut sim = SingleThreaded::new();

    // Check initial bounds
    assert_eq!(sim.get_bounds(), 0);

    // Set bounds to 10
    let bounds = sim.set_bounds(10);
    assert_eq!(bounds, 10);

    // Check that the vector has the correct length
    assert_eq!(sim.cell_count(), 1000);

    // Set bounds to 5
    let bounds = sim.set_bounds(5);
    assert_eq!(bounds, 5);

    // Check that the vector has the correct length
    assert_eq!(sim.cell_count(), 125);
}

#[test]
fn simple_cell_test_count_cells() {
    let mut sim = SingleThreaded::new();
    sim.set_bounds(10);

    // Initially all cells should be dead
    assert_eq!(sim.count_cells(), 0);

    // Set some cells to be alive
    for index in [0usize, 10, 20] {
        let mut cell = sim.cell(index);
        cell.state = 1;
        sim.set_cell(index, cell);
    }

    // Check that count_cells returns the correct number of live cells
    assert_eq!(sim.count_cells(), 3);
}

fn contains(offsets: &[IVec3], a: [i32; 3]) -> bool {
    offsets.contains(&IVec3::from_array(a))
}

#[test]
fn test_von_neumann_neighbourhood() {
    let vn_neigh = Neighbourhood::VonNeumann.get_neighbourhood_iter();

    assert_eq!(vn_neigh.len(), 6);
    assert!(contains(&vn_neigh, [1, 0, 0]));
    assert!(contains(&vn_neigh, [0, 1, 0]));
    assert!(contains(&vn_neigh, [0, 0, 1]));
    assert!(contains(&vn_neigh, [-1, 0, 0]));
    assert!(contains(&vn_neigh, [0, -1, 0]));
    assert!(contains(&vn_neigh, [0, 0, -1]));
}

#[test]
fn test_moore_neighbourhood() {
    let moore_neigh = Neighbourhood::Moore.get_neighbourhood_iter();

    assert_eq!(moore_neigh.len(), 26);
    assert!(contains(&moore_neigh, [-1, -1, -1]));
    assert!(contains(&moore_neigh, [0, -1, -1]));
    assert!(contains(&moore_neigh, [1, -1, -1]));
    assert!(contains(&moore_neigh, [-1, 0, -1]));
    assert!(contains(&moore_neigh, [0, 0, -1]));
    assert!(contains(&moore_neigh, [1, 0, -1]));
    assert!(contains(&moore_neigh, [-1, 1, -1]));
    assert!(contains(&moore_neigh, [0, 1, -1]));
    assert!(contains(&moore_neigh, [1, 1, -1]));
    assert!(contains(&moore_neigh, [-1, -1, 0]));
    assert!(contains(&moore_neigh, [0, -1, 0]));
    assert!(contains(&moore_neigh, [1, -1, 0]));
    assert!(contains(&moore_neigh, [-1, 0, 0]));
    assert!(contains(&moore_neigh, [1, 0, 0]));
    assert!(contains(&moore_neigh, [-1, 1, 0]));
    assert!(contains(&moore_neigh, [0, 1, 0]));
    assert!(contains(&moore_neigh, [1, 1, 0]));
    assert!(contains(&moore_neigh, [-1, -1, 1]));
    assert!(contains(&moore_neigh, [0, -1, 1]));
    assert!(contains(&moore_neigh, [1, -1, 1]));
    assert!(contains(&moore_neigh, [-1, 0, 1]));
    assert!(contains(&moore_neigh, [0, 0, 1]));
    assert!(contains(&moore_neigh, [1, 0, 1]));
    assert!(contains(&moore_neigh, [-1, 1, 1]));
    assert!(contains(&moore_neigh, [0, 1, 1]));
    assert!(contains(&moore_neigh, [1, 1, 1]));
}

#[test]
fn test_value_new() {
    let indices = [1, 3, 5];
    let value = Value::new(&indices);
    assert_eq!(value.0[0], false);
    assert_eq!(value.0[1], true);
    assert_eq!(value.0[2], false);
    assert_eq!(value.0[3], true);
    assert_eq!(value.0[4], false);
    assert_eq!(value.0[5], true);
    assert_eq!(value.0[6], false);
    assert_eq!(value.0[7], false);
    assert_eq!(value.0[8], false);
    assert_eq!(value.0[9], false);
    assert_eq!(value.0[10], false);
    assert_eq!(value.0[11], false);
    assert_eq!(value.0[12], false);
    assert_eq!(value.0[13], false);
    assert_eq!(value.0[14], false);
    assert_eq!(value.0[15], false);
    assert_eq!(value.0[16], false);
    assert_eq!(value.0[17], false);
    assert_eq!(value.0[18], false);
    assert_eq!(value.0[19], false);
    assert_eq!(value.0[20], false);
    assert_eq!(value.0[21], false);
    assert_eq!(value.0[22], false);
    assert_eq!(value.0[23], false);
    assert_eq!(value.0[24], false);
    assert_eq!(value.0[25], false);
    assert_eq!(value.0[26], false);
}

#[test]
fn test_value_from_range() {
    let range = 3..=8;
    let value = Value::from_range(range);
    assert_eq!(value.0[0], false);
    assert_eq!(value.0[1], false);
    assert_eq!(value.0[2], false);
    assert_eq!(value.0[3], true);
    assert_eq!(value.0[4], true);
    assert_eq!(value.0[5], true);
    assert_eq!(value.0[6], true);
    assert_eq!(value.0[7], true);
    assert_eq!(value.0[8], true);
    assert_eq!(value.0[9], false);
    assert_eq!(value.0[10], false);
    assert_eq!(value.0[11], false);
    assert_eq!(value.0[12], false);
    assert_eq!(value.0[13], false);
    assert_eq!(value.0[14], false);
    assert_eq!(value.0[15], false);
    assert_eq!(value.0[16], false);
    assert_eq!(value.0[17], false);
    assert_eq!(value.0[18], false);
    assert_eq!(value.0[19], false);
    assert_eq!(value.0[20], false);
    assert_eq!(value.0[21], false);
    assert_eq!(value.0[22], false);
    assert_eq!(value.0[23], false);
    assert_eq!(value.0[24], false);
    assert_eq!(value.0[25], false);
    assert_eq!(value.0[26], false);
}

#[test]
fn test_value_is_valid() {
    let indices = [1, 3, 5, 7, 9, 11, 13, 15, 17, 19, 21, 23, 25];
    let value = Value::new(&indices);
    assert_eq!(value.is_valid(1), true);
    assert_eq!(value.is_valid(2), false);
    assert_eq!(value.is_valid(3), true);
    assert_eq!(value.is_valid(4), false);
    assert_eq!(value.is_valid(5), true);
    assert_eq!(value.is_valid(6), false);
    assert_eq!(value.is_valid(7), true);
    assert_eq!(value.is_valid(8), false);
    assert_eq!(value.is_valid(9), true);
    assert_eq!(value.is_valid(10), false);
    assert_eq!(value.is_valid(11), true);
    assert_eq!(value.is_valid(12), false);
    assert_eq!(value.is_valid(13), true);
    assert_eq!(value.is_valid(14), false);
    assert_eq!(value.is_valid(15), true);
    assert_eq!(value.is_valid(16), false);
    assert_eq!(value.is_valid(17), true);
    assert_eq!(value.is_valid(18), false);
    assert_eq!(value.is_valid(19), true);
    assert_eq!(value.is_valid(20), false);
    assert_eq!(value.is_valid(21), true);
    assert_eq!(value.is_valid(22), false);
    assert_eq!(value.is_valid(23), true);
    assert_eq!(value.is_valid(24), false);
    assert_eq!(value.is_valid(25), true);
    assert_eq!(value.is_valid(26), false);
}

#[test]
fn test_value_change_value() {
    let indices = [1, 3, 5, 7, 9, 11, 13, 15, 17, 19, 21, 23, 25];
    let value = Value::new(&indices);
    let new_value = value.change_value(0);
    assert_eq!(value.get_value(0), false);
    assert_eq!(new_value.get_value(0), true);
    assert_eq!(value.get_value(1), true);
    assert_eq!(new_value.get_value(1), true);
}

#[test]
fn test_rule_creation() {
    let indices1 = [1, 3, 5, 7, 9, 11, 13, 15, 17, 19, 21, 23, 25];
    let indices2 = [0, 2, 4, 6, 8, 10, 12, 14, 16, 18, 20, 22, 24];
    let birth = Value::new(&indices1);
    let survival = Value::new(&indices2);
    let neighbourhood = Neighbourhood::Moore;
    let states = 2;
    let rule = Rule { birth, survival, neighbourhood, states };
    assert_eq!(rule.birth, birth);
    assert_eq!(rule.survival, survival);
    assert_eq!(rule.neighbourhood, neighbourhood);
    assert_eq!(rule.states, states);
}

#[test]
fn tests_test_pos_to_idx() {
    let bounds = 32;

    // Test case 1
    let index = 0;
    assert_eq!(ivec3(0, 0, 0), idx_to_pos(index, bounds));

    // Test case 2
    let index = 55;
    assert_eq!(ivec3(23, 1, 0), idx_to_pos(index, bounds));

    // Test case 3
    let index = 32768;
    assert_eq!(ivec3(0, 0, 32), idx_to_pos(index, bounds));
}

#[test]
fn tests_test_idx_to_pos() {
    // Test case 1
    assert_eq!(55, pos_to_idx(ivec3(23, 1, 0), 32));

    // Test case 2
    assert_eq!(0, pos_to_idx(ivec3(0, 0, 0), 32));

    // Test case 3
    assert_eq!(33824, pos_to_idx(ivec3(32, 32, 32), 32));
}

#[test]
fn utilities_test_pos_to_idx() {
    let bounds = 32;

    // Test case 1
    let index = 0;
    assert_eq!(ivec3(0, 0, 0), idx_to_pos(index, bounds));

    // Test case 2
    let index = 55;
    assert_eq!(ivec3(23, 1, 0), idx_to_pos(index, bounds));

    // Test case 3
    let index = 32768;
    assert_eq!(ivec3(0, 0, 32), idx_to_pos(index, bounds));
}

#[test]
fn utilities_test_idx_to_pos() {
    // Test case 1
    assert_eq!(55, pos_to_idx(ivec3(23, 1, 0), 32));

    // Test case 2
    assert_eq!(0, pos_to_idx(ivec3(0, 0, 0), 32));

    // Test case 3
    assert_eq!(33824, pos_to_idx(ivec3(32, 32, 32), 32));
}

#[test]
fn test_generate_noise() {
    let mut result_set = std::collections::HashSet::new();
    for p in generate_noise(ivec3(0, 0, 0), 1, 10) {
        result_set.insert(p);
    }
    assert!(result_set.len() > 0);
}

#[test]
fn test_get_centre() {
    assert_eq!(get_centre(3), ivec3(1, 1, 1));
    assert_eq!(get_centre(4), ivec3(2, 2, 2));
}

#[test]
fn test_wrap() {
    assert_eq!(wrap(ivec3(-1, -1, -1), 3), ivec3(2, 2, 2));
    assert_eq!(wrap(ivec3(3, 3, 3), 3), ivec3(0, 0, 0));
}
