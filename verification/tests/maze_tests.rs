use maze_gen::{Cell, Maze, MazeError};

fn drive_random(m: &mut Maze) {
    let mut steps = 0u32;
    while !m.is_complete() && steps < 1_000_000 {
        m.gen_maze();
        steps += 1;
    }
    assert!(m.is_complete(), "generation did not finish");
}

fn drive_first_choice(m: &mut Maze) {
    let mut steps = 0u32;
    while !m.is_complete() && steps < 1_000_000 {
        m.step_with_choice(0);
        steps += 1;
    }
    assert!(m.is_complete(), "generation did not finish");
}

fn adjacent(width: usize, a: usize, b: usize) -> bool {
    let (ra, ca) = (a / width, a % width);
    let (rb, cb) = (b / width, b % width);
    (ra == rb && (ca + 1 == cb || cb + 1 == ca)) || (ca == cb && (ra + 1 == rb || rb + 1 == ra))
}

#[test]
fn construction_rejects_zero_dimensions() {
    assert_eq!(Maze::new(0, 5).unwrap_err(), MazeError::InvalidDimensions);
    assert_eq!(Maze::new(5, 0).unwrap_err(), MazeError::InvalidDimensions);
}

#[test]
fn construction_starts_closed_and_unvisited() {
    let m = Maze::new(5, 5).unwrap();
    assert_eq!(m.width(), 5);
    assert_eq!(m.height(), 5);
    assert_eq!(m.get_head(), 0);
    assert_eq!(m.visited_count(), 0);
    assert!(!m.is_complete());
    assert_eq!(m.cells().len(), 25);
    for c in m.cells() {
        assert!(!c.visited);
        assert_eq!(c.wall_mask(), 15);
    }
    assert!(m.carves().is_empty());
}

#[test]
fn get_index_is_row_major() {
    let m = Maze::new(3, 2).unwrap();
    assert_eq!(m.get_index(0, 0), 0);
    assert_eq!(m.get_index(0, 2), 2);
    assert_eq!(m.get_index(1, 2), 5);
}

#[test]
fn wall_mask_reports_each_side() {
    let c = Cell { visited: false, wall_up: true, wall_right: false, wall_down: true, wall_left: false };
    assert_eq!(c.wall_mask(), 1 + 4);
    let c = Cell { visited: true, wall_up: false, wall_right: true, wall_down: false, wall_left: true };
    assert_eq!(c.wall_mask(), 2 + 8);
}

#[test]
fn unit_maze_completes_in_one_step() {
    let mut m = Maze::new(1, 1).unwrap();
    assert!(!m.is_complete());
    m.step_with_choice(0);
    assert!(m.is_complete());
    assert_eq!(m.visited_count(), 1);
    assert!(m.carves().is_empty());
    assert_eq!(m.cells()[0].wall_mask(), 15);
    assert_eq!(m.get_head(), 0);
}

#[test]
fn two_by_two_first_choice_scenario() {
    let mut m = Maze::new(2, 2).unwrap();
    drive_first_choice(&mut m);
    assert_eq!(m.visited_count(), 4);
    assert_eq!(m.carves().as_slice(), &[(0, 1), (1, 3), (3, 2)]);
    let masks: Vec<u8> = m.cells().iter().map(|c| c.wall_mask()).collect();
    assert_eq!(masks, vec![13, 3, 13, 6]);
    for c in m.cells() {
        assert!(c.visited);
    }
}

#[test]
fn two_by_two_random_is_a_perfect_maze() {
    let mut m = Maze::new(2, 2).unwrap();
    drive_random(&mut m);
    assert_eq!(m.visited_count(), 4);
    assert_eq!(m.carves().len(), 3);
    for &(a, b) in m.carves().iter() {
        assert!(adjacent(2, a, b));
    }
}

#[test]
fn completion_marks_every_cell_once() {
    let mut m = Maze::new(6, 4).unwrap();
    drive_random(&mut m);
    assert_eq!(m.visited_count(), 24);
    let visited: usize = m.cells().iter().filter(|c| c.visited).count();
    assert_eq!(visited, 24);
}

#[test]
fn perfect_maze_edge_count_and_connectivity() {
    let mut m = Maze::new(5, 5).unwrap();
    drive_random(&mut m);
    let carves = m.carves().clone();
    assert_eq!(carves.len(), 24);
    // each carved edge joins adjacent cells, and no cell is entered twice
    let mut entered = vec![false; 25];
    for &(a, b) in carves.iter() {
        assert!(adjacent(5, a, b));
        assert!(!entered[b], "cell {} entered twice", b);
        entered[b] = true;
    }
    // every cell is reachable from the start through carved edges
    let mut seen = vec![false; 25];
    seen[0] = true;
    let mut queue = vec![0usize];
    while let Some(x) = queue.pop() {
        for &(a, b) in carves.iter() {
            if a == x && !seen[b] {
                seen[b] = true;
                queue.push(b);
            }
            if b == x && !seen[a] {
                seen[a] = true;
                queue.push(a);
            }
        }
    }
    assert!(seen.iter().all(|&s| s));
}

#[test]
fn carving_is_symmetric() {
    let mut m = Maze::new(4, 4).unwrap();
    drive_random(&mut m);
    let cells = m.cells();
    for &(a, b) in m.carves().iter() {
        let (wa, wb) = if b == a + 1 {
            (!cells[a].wall_right, !cells[b].wall_left)
        } else if a == b + 1 {
            (!cells[a].wall_left, !cells[b].wall_right)
        } else if b == a + 4 {
            (!cells[a].wall_down, !cells[b].wall_up)
        } else {
            (!cells[a].wall_up, !cells[b].wall_down)
        };
        assert!(wa && wb, "edge ({}, {}) is not open on both sides", a, b);
    }
}

#[test]
fn stepping_after_completion_changes_nothing() {
    let mut m = Maze::new(3, 3).unwrap();
    drive_random(&mut m);
    let cells_before: Vec<Cell> = m.cells().clone();
    let head_before = m.get_head();
    let count_before = m.visited_count();
    let carves_before = m.carves().clone();
    m.gen_maze();
    m.step_with_choice(7);
    assert_eq!(m.cells().as_slice(), cells_before.as_slice());
    assert_eq!(m.get_head(), head_before);
    assert_eq!(m.visited_count(), count_before);
    assert_eq!(m.carves().as_slice(), carves_before.as_slice());
}

#[test]
fn fixed_choices_are_deterministic() {
    let mut a = Maze::new(3, 3).unwrap();
    let mut b = Maze::new(3, 3).unwrap();
    drive_first_choice(&mut a);
    drive_first_choice(&mut b);
    assert_eq!(a.carves().as_slice(), b.carves().as_slice());
    let masks_a: Vec<u8> = a.cells().iter().map(|c| c.wall_mask()).collect();
    let masks_b: Vec<u8> = b.cells().iter().map(|c| c.wall_mask()).collect();
    assert_eq!(masks_a, masks_b);
}

#[test]
fn render_marks_visited_cells() {
    let m = Maze::new(2, 1).unwrap();
    assert_eq!(m.render(), "\u{25fb}\u{25fb}\n");
    let mut m = Maze::new(2, 2).unwrap();
    m.step_with_choice(0);
    assert_eq!(m.render(), "\u{25fc}\u{25fb}\n\u{25fb}\u{25fb}\n");
    drive_first_choice(&mut m);
    assert_eq!(m.render(), "\u{25fc}\u{25fc}\n\u{25fc}\u{25fc}\n");
}

#[test]
fn random_draws_still_complete_larger_grids() {
    let mut m = Maze::new(12, 7).unwrap();
    drive_random(&mut m);
    assert_eq!(m.visited_count(), 84);
    assert_eq!(m.carves().len(), 83);
}
