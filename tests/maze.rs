use maze_builder::maze::{Cell, Coords, Direction, LinkType, Maze, MazeBuilder, MazeError};
use maze_builder::maze_generator::wilson::WilsonGenerator;
use maze_builder::{get_maze_generator, CommandArgs, GeneratorType};

fn passage_count(maze: &Maze) -> usize {
    let (width, height) = maze.get_dimensions();
    let mut count = 0;
    for y in 0..height {
        for x in 0..width {
            let cell = maze.borrow_cell(&Coords { x, y });
            if cell.right == LinkType::Path {
                count += 1;
            }
            if cell.bottom == LinkType::Path {
                count += 1;
            }
        }
    }
    count
}

fn reachable_count(maze: &Maze) -> usize {
    let (width, height) = maze.get_dimensions();
    let mut seen = vec![vec![false; width]; height];
    let mut stack = vec![Coords { x: 0, y: 0 }];
    seen[0][0] = true;
    let mut count = 1;
    while let Some(c) = stack.pop() {
        for m in maze.get_possible_moves(&c) {
            if !seen[m.y][m.x] {
                seen[m.y][m.x] = true;
                count += 1;
                stack.push(m);
            }
        }
    }
    count
}

fn assert_symmetric(maze: &Maze) {
    let (width, height) = maze.get_dimensions();
    for y in 0..height {
        for x in 0..width {
            let cell = maze.borrow_cell(&Coords { x, y });
            if x + 1 < width {
                assert_eq!(cell.right, maze.borrow_cell(&Coords { x: x + 1, y }).left);
            } else {
                assert_eq!(cell.right, LinkType::Wall);
            }
            if y + 1 < height {
                assert_eq!(cell.bottom, maze.borrow_cell(&Coords { x, y: y + 1 }).top);
            } else {
                assert_eq!(cell.bottom, LinkType::Wall);
            }
            if x == 0 {
                assert_eq!(cell.left, LinkType::Wall);
            }
            if y == 0 {
                assert_eq!(cell.top, LinkType::Wall);
            }
        }
    }
}

fn assert_perfect(maze: &Maze, width: usize, height: usize) {
    assert_eq!(maze.get_dimensions(), (width, height));
    assert_eq!(passage_count(maze), width * height - 1);
    assert_eq!(reachable_count(maze), width * height);
    for y in 0..height {
        for x in 0..width {
            assert!(maze.borrow_cell(&Coords { x, y }).in_maze);
        }
    }
    assert_symmetric(maze);
}

#[test]
fn directions_at_top_left_corner() {
    let maze = MazeBuilder::from_generator(WilsonGenerator).generate(4, 4).unwrap();
    let dirs = maze.get_directions_possible(&Coords { x: 0, y: 0 });
    assert_eq!(dirs, vec![Direction::Right, Direction::Down]);
}

#[test]
fn directions_at_bottom_right_corner() {
    let maze = MazeBuilder::from_generator(WilsonGenerator).generate(4, 4).unwrap();
    let dirs = maze.get_directions_possible(&Coords { x: 3, y: 3 });
    assert_eq!(dirs, vec![Direction::Left, Direction::Up]);
}

#[test]
fn directions_inside_the_grid() {
    let maze = MazeBuilder::from_generator(WilsonGenerator).generate(4, 4).unwrap();
    let dirs = maze.get_directions_possible(&Coords { x: 1, y: 2 });
    assert_eq!(dirs, vec![Direction::Left, Direction::Up, Direction::Right, Direction::Down]);
}

#[test]
fn directions_on_a_single_cell() {
    let maze = MazeBuilder::from_generator(WilsonGenerator).generate(1, 1).unwrap();
    assert!(maze.get_directions_possible(&Coords { x: 0, y: 0 }).is_empty());
}

#[test]
fn generated_maze_is_perfect() {
    let maze = MazeBuilder::from_generator(WilsonGenerator).generate(10, 10).unwrap();
    assert_perfect(&maze, 10, 10);
}

#[test]
fn generated_rectangular_mazes_are_perfect() {
    for (w, h) in [(1, 1), (1, 5), (5, 1), (2, 3), (7, 4)] {
        let maze = MazeBuilder::from_generator(WilsonGenerator).generate(w, h).unwrap();
        assert_perfect(&maze, w, h);
    }
}

#[test]
fn generated_mazes_stay_perfect_over_many_runs() {
    for _ in 0..20 {
        let maze = MazeBuilder::from_generator(WilsonGenerator).generate(6, 5).unwrap();
        assert_perfect(&maze, 6, 5);
    }
}

#[test]
fn zero_width_is_rejected() {
    let r = MazeBuilder::from_generator(WilsonGenerator).generate(0, 4);
    assert_eq!(r.unwrap_err(), MazeError::InvalidDimensions);
}

#[test]
fn zero_height_is_rejected() {
    let r = MazeBuilder::from_generator(WilsonGenerator).generate(4, 0);
    assert_eq!(r.unwrap_err(), MazeError::InvalidDimensions);
}

#[test]
fn start_and_end_points() {
    let maze = MazeBuilder::from_generator(WilsonGenerator).generate(7, 3).unwrap();
    assert_eq!(*maze.get_start_point(), Coords { x: 0, y: 0 });
    assert_eq!(*maze.get_end_point(), Coords { x: 6, y: 2 });
    assert_eq!(maze.get_width(), 7);
    assert_eq!(maze.get_height(), 3);
}

fn wall_cell() -> Cell {
    Cell {
        top: LinkType::Wall,
        right: LinkType::Wall,
        bottom: LinkType::Wall,
        left: LinkType::Wall,
        direction: Direction::Blank,
        in_maze: false,
    }
}

#[test]
fn possible_moves_follow_open_sides() {
    let mut data = vec![vec![wall_cell(); 2]; 2];
    data[0][0].right = LinkType::Path;
    data[0][1].left = LinkType::Path;
    data[0][1].bottom = LinkType::Path;
    data[1][1].top = LinkType::Path;
    let maze = Maze::from_cells(2, 2, data).unwrap();
    assert_eq!(maze.get_possible_moves(&Coords { x: 1, y: 0 }), vec![Coords { x: 1, y: 1 }, Coords { x: 0, y: 0 }]);
    assert_eq!(maze.get_possible_moves(&Coords { x: 0, y: 0 }), vec![Coords { x: 1, y: 0 }]);
    assert!(maze.get_possible_moves(&Coords { x: 0, y: 1 }).is_empty());
}

#[test]
fn from_cells_rejects_open_border() {
    let mut data = vec![vec![wall_cell(); 2]; 2];
    data[0][0].top = LinkType::Path;
    assert!(Maze::from_cells(2, 2, data).is_none());
}

#[test]
fn from_cells_rejects_wrong_shape() {
    let data = vec![vec![wall_cell(); 2]; 3];
    assert!(Maze::from_cells(2, 2, data).is_none());
    assert!(Maze::from_cells(0, 0, Vec::new()).is_none());
}

#[test]
fn borrow_cell_mut_changes_one_cell() {
    let mut maze = Maze::from_cells(2, 1, vec![vec![wall_cell(); 2]]).unwrap();
    maze.borrow_cell_mut(&Coords { x: 1, y: 0 }).in_maze = true;
    assert!(maze.borrow_cell(&Coords { x: 1, y: 0 }).in_maze);
    assert!(!maze.borrow_cell(&Coords { x: 0, y: 0 }).in_maze);
}

fn args(wilson: bool, other: bool) -> CommandArgs {
    CommandArgs {
        width: 3,
        height: 3,
        path_out: String::from("./out.png"),
        console_print: false,
        cell_width: 10,
        cell_height: 10,
        solve: false,
        serialize: None,
        wilson,
        other,
    }
}

#[test]
fn generator_type_follows_flags() {
    assert_eq!(args(true, false).get_generator_type(), GeneratorType::Wilson);
    assert_eq!(args(false, true).get_generator_type(), GeneratorType::Other);
    let t = args(false, false).get_generator_type();
    assert!(t == GeneratorType::Wilson || t == GeneratorType::Other);
}

#[test]
fn generator_type_from_draw() {
    assert_eq!(GeneratorType::from_draw(0), GeneratorType::Wilson);
    assert_eq!(GeneratorType::from_draw(1), GeneratorType::Other);
}

#[test]
fn wilson_generator_is_chosen() {
    let generator = get_maze_generator(GeneratorType::Wilson);
    let maze = MazeBuilder::from_generator(generator).generate(3, 2).unwrap();
    assert_perfect(&maze, 3, 2);
}

#[test]
fn new_maze_is_blank() {
    let maze = Maze::new(3, 2).unwrap();
    assert_eq!(maze.get_dimensions(), (3, 2));
    assert_eq!(*maze.get_end_point(), Coords { x: 2, y: 1 });
    for y in 0..2 {
        for x in 0..3 {
            assert_eq!(*maze.borrow_cell(&Coords { x, y }), wall_cell());
        }
    }
}

#[test]
fn new_maze_without_cells_is_refused() {
    assert_eq!(Maze::new(0, 3).unwrap_err(), MazeError::InvalidDimensions);
    assert_eq!(Maze::new(3, 0).unwrap_err(), MazeError::InvalidDimensions);
}

#[test]
fn console_picture_of_two_cells() {
    let maze = MazeBuilder::from_generator(WilsonGenerator).generate(2, 1).unwrap();
    let lines: Vec<String> = maze.console_lines().iter().map(|l| l.iter().collect()).collect();
    assert_eq!(lines, vec!["+---+---+", "|       |", "+---+---+"]);
}

#[test]
fn console_picture_of_a_column() {
    let mut data = vec![vec![wall_cell(); 1]; 2];
    data[0][0].bottom = LinkType::Path;
    data[1][0].top = LinkType::Path;
    let maze = Maze::from_cells(1, 2, data).unwrap();
    let lines: Vec<String> = maze.console_lines().iter().map(|l| l.iter().collect()).collect();
    assert_eq!(lines, vec!["+---+", "|   |", "+   +", "|   |", "+---+"]);
}

#[test]
fn single_cell_maze_is_generated() {
    let maze = MazeBuilder::from_generator(WilsonGenerator).generate(1, 1).unwrap();
    let cell = maze.borrow_cell(&Coords { x: 0, y: 0 });
    assert!(cell.in_maze);
    assert_eq!(cell.top, LinkType::Wall);
    assert_eq!(cell.right, LinkType::Wall);
    assert_eq!(cell.bottom, LinkType::Wall);
    assert_eq!(cell.left, LinkType::Wall);
    assert_eq!(*maze.get_start_point(), *maze.get_end_point());
}

#[test]
fn single_column_maze_is_a_straight_line() {
    let maze = MazeBuilder::from_generator(WilsonGenerator).generate(1, 4).unwrap();
    for y in 0..3 {
        assert_eq!(maze.borrow_cell(&Coords { x: 0, y }).bottom, LinkType::Path);
        assert_eq!(maze.borrow_cell(&Coords { x: 0, y: y + 1 }).top, LinkType::Path);
    }
}
