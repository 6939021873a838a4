use maze_builder::image_drawer::{draw_full_square_with_center, draw_line, draw_line_with_thickness, Canvas};
use maze_builder::maze::{Coords, LinkType, MazeBuilder};
use maze_builder::maze_generator::wilson::WilsonGenerator;
use maze_builder::maze_image_builder::{ConfigArray, MazeImageBuilder};
use maze_builder::solver::solve_maze;

const BLACK: (u8, u8, u8) = (0, 0, 0);
const WHITE: (u8, u8, u8) = (0xff, 0xff, 0xff);
const RED: (u8, u8, u8) = (0xff, 0, 0);

fn pixel(canvas: &Canvas, x: u32, y: u32) -> (u8, u8, u8) {
    let p = canvas.image.get_pixel(x, y).0;
    (p[0], p[1], p[2])
}

fn painted(canvas: &Canvas, color: (u8, u8, u8)) -> Vec<(u32, u32)> {
    let (w, h) = canvas.dimensions();
    let mut out = Vec::new();
    for y in 0..h {
        for x in 0..w {
            if pixel(canvas, x, y) == color {
                out.push((x, y));
            }
        }
    }
    out
}

#[test]
fn test_draw_rectangle() {
    let mut image = Canvas::from_pixel(10, 10, BLACK);
    let begin = Coords { x: 2, y: 2 };
    let end = Coords { x: 2, y: 5 };
    draw_line_with_thickness(&mut image, &begin, &end, 3, WHITE);
    let mut expected = Vec::new();
    for y in 1..=6 {
        for x in 1..=3 {
            expected.push((x, y));
        }
    }
    assert_eq!(painted(&image, WHITE), expected);
}

#[test]
fn line_includes_both_ends() {
    let mut image = Canvas::from_pixel(10, 10, BLACK);
    draw_line(&mut image, &Coords { x: 2, y: 2 }, &Coords { x: 2, y: 5 }, WHITE);
    assert_eq!(painted(&image, WHITE), vec![(2, 2), (2, 3), (2, 4), (2, 5)]);
}

#[test]
fn diagonal_line() {
    let mut image = Canvas::from_pixel(6, 6, BLACK);
    draw_line(&mut image, &Coords { x: 4, y: 4 }, &Coords { x: 1, y: 1 }, WHITE);
    assert_eq!(painted(&image, WHITE), vec![(1, 1), (2, 2), (3, 3), (4, 4)]);
}

#[test]
fn shallow_line() {
    let mut image = Canvas::from_pixel(8, 3, BLACK);
    draw_line(&mut image, &Coords { x: 0, y: 0 }, &Coords { x: 4, y: 2 }, WHITE);
    assert_eq!(painted(&image, WHITE), vec![(0, 0), (1, 1), (2, 1), (3, 2), (4, 2)]);
}

#[test]
fn line_with_an_end_outside_draws_nothing() {
    let mut image = Canvas::from_pixel(5, 5, BLACK);
    draw_line_with_thickness(&mut image, &Coords { x: 1, y: 1 }, &Coords { x: 5, y: 1 }, 1, WHITE);
    draw_line(&mut image, &Coords { x: 1, y: 9 }, &Coords { x: 1, y: 1 }, WHITE);
    assert!(painted(&image, WHITE).is_empty());
}

#[test]
fn even_square_reaches_forward() {
    let mut image = Canvas::from_pixel(10, 10, BLACK);
    draw_full_square_with_center(&mut image, &Coords { x: 5, y: 5 }, 2, WHITE);
    assert_eq!(painted(&image, WHITE), vec![(5, 5), (6, 5), (5, 6), (6, 6)]);
}

#[test]
fn square_of_radius_zero_is_empty() {
    let mut image = Canvas::from_pixel(4, 4, BLACK);
    draw_full_square_with_center(&mut image, &Coords { x: 2, y: 2 }, 0, WHITE);
    assert!(painted(&image, WHITE).is_empty());
}

#[test]
fn square_is_clipped_at_the_border() {
    let mut image = Canvas::from_pixel(4, 4, BLACK);
    draw_full_square_with_center(&mut image, &Coords { x: 0, y: 3 }, 3, WHITE);
    assert_eq!(painted(&image, WHITE), vec![(0, 2), (1, 2), (0, 3), (1, 3)]);
}

#[test]
fn canvas_from_pixel() {
    let image = Canvas::from_pixel(3, 2, RED);
    assert_eq!(image.dimensions(), (3, 2));
    assert_eq!(painted(&image, RED).len(), 6);
}

#[test]
fn image_size_formula() {
    let maze = MazeBuilder::from_generator(WilsonGenerator).generate(10, 10).unwrap();
    let config = ConfigArray { cell_width: 10, cell_height: 10 };
    assert_eq!(MazeImageBuilder::get_image_array_size(&maze, &config), (91, 91));
    let maze = MazeBuilder::from_generator(WilsonGenerator).generate(3, 2).unwrap();
    let config = ConfigArray { cell_width: 5, cell_height: 7 };
    assert_eq!(MazeImageBuilder::get_image_array_size(&maze, &config), (13, 13));
}

#[test]
fn rendering_twice_gives_the_same_pixels() {
    let maze = MazeBuilder::from_generator(WilsonGenerator).generate(7, 5).unwrap();
    let config = ConfigArray { cell_width: 9, cell_height: 6 };
    let a = MazeImageBuilder::new(config, &maze).build_image();
    let config = ConfigArray { cell_width: 9, cell_height: 6 };
    let b = MazeImageBuilder::new(config, &maze).build_image();
    assert_eq!(a.image.as_raw(), b.image.as_raw());
}

#[test]
fn wall_thickness_is_a_tenth_of_the_cell() {
    let maze = MazeBuilder::from_generator(WilsonGenerator).generate(1, 1).unwrap();
    let image = MazeImageBuilder::new(ConfigArray { cell_width: 20, cell_height: 20 }, &maze).build_image();
    assert_eq!(image.dimensions(), (20, 20));
    assert_eq!(pixel(&image, 0, 10), BLACK);
    assert_eq!(pixel(&image, 1, 10), BLACK);
    assert_eq!(pixel(&image, 2, 10), WHITE);
    assert_eq!(pixel(&image, 10, 1), BLACK);
    assert_eq!(pixel(&image, 10, 2), WHITE);
    assert_eq!(pixel(&image, 18, 10), WHITE);
    assert_eq!(pixel(&image, 19, 10), BLACK);
    assert_eq!(pixel(&image, 10, 19), BLACK);
    assert_eq!(pixel(&image, 10, 10), WHITE);
}

#[test]
fn open_sides_are_not_drawn() {
    let maze = MazeBuilder::from_generator(WilsonGenerator).generate(2, 1).unwrap();
    assert_eq!(maze.borrow_cell(&Coords { x: 0, y: 0 }).right, LinkType::Path);
    let image = MazeImageBuilder::new(ConfigArray { cell_width: 11, cell_height: 11 }, &maze).build_image();
    assert_eq!(image.dimensions(), (21, 11));
    assert_eq!(pixel(&image, 10, 5), WHITE);
    assert_eq!(pixel(&image, 0, 5), BLACK);
    assert_eq!(pixel(&image, 20, 5), BLACK);
    assert_eq!(pixel(&image, 10, 0), BLACK);
}

#[test]
fn solution_is_drawn_in_red() {
    let maze = MazeBuilder::from_generator(WilsonGenerator).generate(2, 1).unwrap();
    let mut builder = MazeImageBuilder::new(ConfigArray { cell_width: 11, cell_height: 11 }, &maze);
    builder.solve(true);
    let image = builder.build_image();
    // centres (5, 5) and (15, 5), a stroke two pixels thick
    assert_eq!(pixel(&image, 5, 5), RED);
    assert_eq!(pixel(&image, 10, 5), RED);
    assert_eq!(pixel(&image, 15, 6), RED);
    assert_eq!(pixel(&image, 10, 7), WHITE);
    assert_eq!(pixel(&image, 10, 4), WHITE);
    assert_eq!(pixel(&image, 16, 5), RED);
    assert_eq!(pixel(&image, 17, 5), WHITE);
}

#[test]
fn draw_cell_draws_closed_sides() {
    let maze = MazeBuilder::from_generator(WilsonGenerator).generate(1, 1).unwrap();
    let mut builder = MazeImageBuilder::new(ConfigArray { cell_width: 5, cell_height: 5 }, &maze);
    builder.draw_cell(0, 0);
    let image = builder.build_image();
    assert_eq!(painted(&image, BLACK).len(), 16);
}

#[test]
fn end_to_end_ten_by_ten() {
    let maze = MazeBuilder::from_generator(WilsonGenerator).generate(10, 10).unwrap();
    let mut passages = 0;
    for y in 0..10 {
        for x in 0..10 {
            let cell = maze.borrow_cell(&Coords { x, y });
            assert!(cell.in_maze);
            if cell.right == LinkType::Path {
                passages += 1;
            }
            if cell.bottom == LinkType::Path {
                passages += 1;
            }
        }
    }
    assert_eq!(passages, 99);
    let path = solve_maze(&maze).unwrap();
    assert_eq!(path.data[0], Coords { x: 0, y: 0 });
    assert_eq!(*path.data.last().unwrap(), Coords { x: 9, y: 9 });
    let mut builder = MazeImageBuilder::new(ConfigArray { cell_width: 10, cell_height: 10 }, &maze);
    builder.solve(true);
    let image = builder.build_image();
    assert_eq!(image.dimensions(), (91, 91));
}

#[test]
fn square_far_outside_changes_nothing() {
    let mut image = Canvas::from_pixel(4, 4, BLACK);
    draw_full_square_with_center(&mut image, &Coords { x: usize::MAX, y: 1 }, 5, WHITE);
    draw_full_square_with_center(&mut image, &Coords { x: 1, y: 1 << 40 }, 5, WHITE);
    assert!(painted(&image, WHITE).is_empty());
}
