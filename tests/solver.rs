use maze_builder::maze::{Cell, Coords, Direction, LinkType, Maze, MazeBuilder};
use maze_builder::maze_generator::wilson::WilsonGenerator;
use maze_builder::solver::{solve_maze, SolverError};

fn wall_cell() -> Cell {
    Cell {
        top: LinkType::Wall,
        right: LinkType::Wall,
        bottom: LinkType::Wall,
        left: LinkType::Wall,
        direction: Direction::Blank,
        in_maze: false,
    }
}

fn open(cell: &mut Cell, d: Direction) {
    match d {
        Direction::Up => cell.top = LinkType::Path,
        Direction::Right => cell.right = LinkType::Path,
        Direction::Down => cell.bottom = LinkType::Path,
        Direction::Left => cell.left = LinkType::Path,
        Direction::Blank => {}
    }
}

/// A grid with exactly the given passages open, each on both of its sides.
fn carved(width: usize, height: usize, passages: Vec<(Coords, Direction)>) -> Maze {
    let mut data = vec![vec![wall_cell(); width]; height];
    for (c, d) in passages {
        let (n, back) = match d {
            Direction::Up => (Coords { x: c.x, y: c.y - 1 }, Direction::Down),
            Direction::Down => (Coords { x: c.x, y: c.y + 1 }, Direction::Up),
            Direction::Left => (Coords { x: c.x - 1, y: c.y }, Direction::Right),
            Direction::Right => (Coords { x: c.x + 1, y: c.y }, Direction::Left),
            Direction::Blank => continue,
        };
        open(&mut data[c.y][c.x], d);
        open(&mut data[n.y][n.x], back);
    }
    Maze::from_cells(width, height, data).unwrap()
}

fn c(x: usize, y: usize) -> Coords {
    Coords { x, y }
}

#[test]
fn test_solve_maze() {
    let generator = WilsonGenerator;
    let maze = MazeBuilder::from_generator(generator).generate(10, 10).unwrap();
    println!("{:?}", solve_maze(&maze));
}

#[test]
fn solver_returns_the_carved_path() {
    // a snake through a 3 by 3 grid
    let maze = carved(
        3,
        3,
        vec![
            (c(0, 0), Direction::Right),
            (c(1, 0), Direction::Right),
            (c(2, 0), Direction::Down),
            (c(2, 1), Direction::Left),
            (c(1, 1), Direction::Left),
            (c(0, 1), Direction::Down),
            (c(0, 2), Direction::Right),
            (c(1, 2), Direction::Right),
        ],
    );
    let path = solve_maze(&maze).unwrap();
    assert_eq!(
        path.data,
        vec![c(0, 0), c(1, 0), c(2, 0), c(2, 1), c(1, 1), c(0, 1), c(0, 2), c(1, 2), c(2, 2)]
    );
}

#[test]
fn solver_ignores_dead_ends() {
    let maze = carved(
        3,
        2,
        vec![
            (c(0, 0), Direction::Right),
            (c(1, 0), Direction::Right),
            (c(0, 0), Direction::Down),
            (c(1, 0), Direction::Down),
            (c(2, 0), Direction::Down),
        ],
    );
    let path = solve_maze(&maze).unwrap();
    assert_eq!(path.data, vec![c(0, 0), c(1, 0), c(2, 0), c(2, 1)]);
}

#[test]
fn solver_reports_disconnected_end() {
    let maze = carved(3, 3, vec![(c(0, 0), Direction::Right), (c(1, 0), Direction::Down)]);
    assert_eq!(solve_maze(&maze).unwrap_err(), SolverError::EndNotReached);
}

#[test]
fn solver_on_a_single_cell() {
    let maze = carved(1, 1, vec![]);
    let path = solve_maze(&maze).unwrap();
    assert_eq!(path.data, vec![c(0, 0)]);
}

#[test]
fn solver_twice_gives_the_same_path() {
    let maze = MazeBuilder::from_generator(WilsonGenerator).generate(12, 9).unwrap();
    let first = solve_maze(&maze).unwrap();
    let second = solve_maze(&maze).unwrap();
    assert_eq!(first.data, second.data);
}

#[test]
fn solved_path_is_a_simple_walk() {
    let maze = MazeBuilder::from_generator(WilsonGenerator).generate(8, 6).unwrap();
    let path = solve_maze(&maze).unwrap();
    assert_eq!(path.data[0], c(0, 0));
    assert_eq!(*path.data.last().unwrap(), c(7, 5));
    for i in 0..path.data.len() - 1 {
        assert!(maze.get_possible_moves(&path.data[i]).contains(&path.data[i + 1]));
    }
    for i in 0..path.data.len() {
        for j in i + 1..path.data.len() {
            assert_ne!(path.data[i], path.data[j]);
        }
    }
}

#[test]
fn solver_prefers_the_shorter_way() {
    // a short way along the top and right, a long one around the left and middle
    let maze = carved(
        3,
        3,
        vec![
            (c(0, 0), Direction::Right),
            (c(1, 0), Direction::Right),
            (c(2, 0), Direction::Down),
            (c(2, 1), Direction::Down),
            (c(0, 0), Direction::Down),
            (c(0, 1), Direction::Down),
            (c(0, 2), Direction::Right),
            (c(1, 2), Direction::Up),
            (c(1, 1), Direction::Right),
        ],
    );
    let path = solve_maze(&maze).unwrap();
    assert_eq!(path.data, vec![c(0, 0), c(1, 0), c(2, 0), c(2, 1), c(2, 2)]);
}
