use rand::{Rng, SeedableRng};
use rand::rngs::StdRng;

use torus_maze::maze::{Maze, NoPathFound, Wall};

/// Every cell position of the given shape, in mixed-radix counting order.
fn all_positions(shape: &[usize]) -> Vec<Vec<usize>> {
    let mut result = vec![vec![0; shape.len()]];
    loop {
        let mut next = result.last().unwrap().clone();
        let mut carry = true;
        for axis in 0..shape.len() {
            if carry {
                next[axis] += 1;
                carry = false;
                if next[axis] == shape[axis] {
                    next[axis] = 0;
                    carry = true;
                }
            }
        }
        if carry {
            return result;
        }
        result.push(next);
    }
}

fn open_wall_count(maze: &Maze) -> usize {
    let shape = maze.get_dimensions().clone();
    let mut open = 0;
    for position in all_positions(&shape) {
        for axis in 0..shape.len() {
            if !maze.get_wall(&Wall { position: position.clone(), axis }) {
                open += 1;
            }
        }
    }
    open
}

#[test]
fn new_rejects_bad_dimensions() {
    assert!(Maze::new(vec![]).is_none());
    assert!(Maze::new(vec![0]).is_none());
    assert!(Maze::new(vec![3, 0, 2]).is_none());
    assert!(Maze::new(vec![usize::MAX, usize::MAX]).is_none());
    assert!(Maze::new(vec![3, 2]).is_some());
    assert!(Maze::new(vec![1]).is_some());
}

#[test]
fn new_starts_with_all_walls_present() {
    let maze = Maze::new(vec![3, 2]).unwrap();
    assert_eq!(maze.get_dimensions(), &vec![3, 2]);
    assert_eq!(maze.get_start(), &vec![0, 0]);
    assert_eq!(maze.get_end(), &vec![0, 0]);
    assert_eq!(maze.get_position(), &vec![0, 0]);
    assert_eq!(maze.get_axes(), (0, 1));
    assert_eq!(open_wall_count(&maze), 0);
}

#[test]
fn wall_index_is_a_bijection_on_a_small_shape() {
    let shape = vec![3, 2];
    let maze = Maze::new(shape.clone()).unwrap();
    let mut seen = Vec::new();
    for position in all_positions(&shape) {
        for axis in 0..shape.len() {
            let index = maze.compute_wall_index(&Wall { position: position.clone(), axis });
            assert!(index < 3 * 2 * 2);
            assert!(!seen.contains(&index));
            seen.push(index);
        }
    }
    assert_eq!(seen.len(), 12);
}

#[test]
fn traverse_wraps_around_the_torus() {
    let maze = Maze::new(vec![3]).unwrap();
    assert_eq!(maze.traverse(&vec![2], 0, true), vec![0]);
    assert_eq!(maze.traverse(&vec![0], 0, false), vec![2]);
    assert_eq!(maze.traverse(&vec![1], 0, true), vec![2]);
    assert_eq!(maze.traverse(&vec![1], 0, false), vec![0]);
}

#[test]
fn from_cell_lists_both_walls_per_axis() {
    let shape = vec![3, 2];
    let walls = Wall::from_cell(&shape, &vec![0, 1]);
    assert_eq!(walls.len(), 4);
    assert_eq!(walls[0].position, vec![0, 1]);
    assert_eq!(walls[0].axis, 0);
    assert_eq!(walls[1].position, vec![2, 1]);
    assert_eq!(walls[1].axis, 0);
    assert_eq!(walls[2].position, vec![0, 1]);
    assert_eq!(walls[2].axis, 1);
    assert_eq!(walls[3].position, vec![0, 0]);
    assert_eq!(walls[3].axis, 1);
}

#[test]
fn neighbour_cells_of_wall_wrap_around() {
    let shape = vec![3, 2];
    let wall = Wall { position: vec![2, 1], axis: 0 };
    let (own, other) = wall.get_neighbour_cells(&shape);
    assert_eq!(own, vec![2, 1]);
    assert_eq!(other, vec![0, 1]);
}

#[test]
fn walk_respects_walls() {
    let mut maze = Maze::new(vec![2, 2]).unwrap();
    maze.walk(0, true);
    assert_eq!(maze.get_position(), &vec![0, 0]);
    maze.set_wall(&Wall { position: vec![0, 0], axis: 0 }, false);
    maze.walk(0, true);
    assert_eq!(maze.get_position(), &vec![1, 0]);
    // The way back crosses the same, now open, wall.
    maze.walk(0, false);
    assert_eq!(maze.get_position(), &vec![0, 0]);
    // The horizontal axis is still fully walled.
    maze.walk(1, true);
    assert_eq!(maze.get_position(), &vec![0, 0]);
}

#[test]
fn set_view_axis_checks_its_arguments() {
    let mut maze = Maze::new(vec![2, 2, 2]).unwrap();
    assert_eq!(maze.get_axes(), (0, 1));
    maze.set_view_axis(0, 2);
    assert_eq!(maze.get_axes(), (2, 1));
    maze.set_view_axis(1, 0);
    assert_eq!(maze.get_axes(), (2, 0));
    maze.set_view_axis(2, 1);
    assert_eq!(maze.get_axes(), (2, 0));
    maze.set_view_axis(0, 9);
    assert_eq!(maze.get_axes(), (2, 0));
}

#[test]
fn start_resets_position_to_start_cell() {
    let mut maze = Maze::new(vec![3, 3]).unwrap();
    assert!(maze.set_start(&vec![2, 1]));
    maze.start();
    assert_eq!(maze.get_position(), &vec![2, 1]);
}

#[test]
fn set_start_and_set_end_reject_bad_cells() {
    let mut maze = Maze::new(vec![3, 3]).unwrap();
    assert!(!maze.set_start(&vec![3, 0]));
    assert!(!maze.set_start(&vec![0]));
    assert_eq!(maze.get_start(), &vec![0, 0]);
    assert!(!maze.set_end(&vec![0, 5]));
    assert_eq!(maze.get_end(), &vec![0, 0]);
    assert!(maze.set_end(&vec![2, 2]));
    assert_eq!(maze.get_end(), &vec![2, 2]);
}

#[test]
fn solve_on_open_grid_finds_manhattan_path() {
    // A 5 x 5 grid with every wall between grid-interior neighbours open
    // and the wraparound walls left closed: the shortest route from
    // (0, 0) to (4, 4) takes 8 steps, so 9 cells.
    let mut maze = Maze::new(vec![5, 5]).unwrap();
    for position in all_positions(&[5, 5]) {
        for axis in 0..2 {
            if position[axis] < 4 {
                maze.set_wall(&Wall { position: position.clone(), axis }, false);
            }
        }
    }
    assert!(maze.set_end(&vec![4, 4]));
    let path = maze.solve().unwrap();
    assert_eq!(path.len(), 9);
    assert_eq!(path[0], vec![0, 0]);
    assert_eq!(path[8], vec![4, 4]);
    for window in path.windows(2) {
        let taxicab: usize = (0..2)
            .map(|axis| window[0][axis].abs_diff(window[1][axis]))
            .sum();
        assert_eq!(taxicab, 1);
    }
}

#[test]
fn solve_respects_walls() {
    // Only two walls are open, so only one route exists.
    let mut maze = Maze::new(vec![2, 2]).unwrap();
    maze.set_wall(&Wall { position: vec![0, 0], axis: 1 }, false);
    maze.set_wall(&Wall { position: vec![0, 1], axis: 0 }, false);
    assert!(maze.set_end(&vec![1, 1]));
    let path = maze.solve().unwrap();
    assert_eq!(path, vec![vec![0, 0], vec![0, 1], vec![1, 1]]);
}

#[test]
fn solve_uses_wraparound_shortcut() {
    // On a fully open 1-dimensional ring of four cells, the route from
    // cell 0 to cell 3 goes through the wraparound edge, not through
    // cells 1 and 2.
    let mut maze = Maze::new(vec![4]).unwrap();
    for i in 0..4 {
        maze.set_wall(&Wall { position: vec![i], axis: 0 }, false);
    }
    assert!(maze.set_end(&vec![3]));
    let path = maze.solve().unwrap();
    assert_eq!(path, vec![vec![0], vec![3]]);
}

#[test]
fn solve_reports_no_path_when_walls_are_closed() {
    let mut maze = Maze::new(vec![2, 2]).unwrap();
    assert!(maze.set_end(&vec![1, 1]));
    assert_eq!(maze.solve(), Err(NoPathFound));
}

#[test]
fn solve_with_equal_start_and_end_returns_single_cell() {
    let maze = Maze::new(vec![3, 3]).unwrap();
    let path = maze.solve().unwrap();
    assert_eq!(path, vec![vec![0, 0]]);
}

#[test]
fn generate_produces_a_spanning_tree() {
    let shape = vec![4, 4];
    let mut maze = Maze::new(shape.clone()).unwrap();
    let mut rng = StdRng::seed_from_u64(0x51a7e11b0c4d92f3);
    maze.generate(&mut rng);
    // A spanning tree of 16 cells opens exactly 15 walls.
    assert_eq!(open_wall_count(&maze), 15);
    // Every cell is reachable from the start along open walls.
    for cell in all_positions(&shape) {
        assert!(maze.set_end(&cell));
        assert!(maze.solve().is_ok());
    }
}

#[test]
fn generate_on_a_ring_connects_every_cell() {
    let mut maze = Maze::new(vec![6]).unwrap();
    let mut rng = StdRng::seed_from_u64(7);
    maze.generate(&mut rng);
    assert_eq!(open_wall_count(&maze), 5);
    for cell in all_positions(&[6]) {
        assert!(maze.set_end(&cell));
        assert!(maze.solve().is_ok());
    }
}

#[test]
fn regenerating_resets_wall_state() {
    let mut maze = Maze::new(vec![3, 3]).unwrap();
    let mut rng = StdRng::seed_from_u64(99);
    maze.generate(&mut rng);
    assert_eq!(open_wall_count(&maze), 8);
    maze.generate(&mut rng);
    // A fresh spanning tree again: the previous openings were reset.
    assert_eq!(open_wall_count(&maze), 8);
}

#[test]
fn reset_walls_closes_everything() {
    let mut maze = Maze::new(vec![3, 3]).unwrap();
    let mut rng = StdRng::seed_from_u64(1);
    maze.generate(&mut rng);
    assert!(open_wall_count(&maze) > 0);
    maze.reset_walls();
    assert_eq!(open_wall_count(&maze), 0);
}
