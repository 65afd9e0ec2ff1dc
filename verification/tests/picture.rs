use image::{DynamicImage, GenericImageView, GrayImage, Luma, Rgba, RgbaImage};
use maze_solver::constants::{PATH, SOLVED_COLOR, WALL, WALL_LIMIT};
use maze_solver::{img_to_vec, mark_solution, render_img, render_maze_solution};

const W: u8 = WALL;
const P: u8 = PATH;

fn sample() -> DynamicImage {
    let mut buffer = RgbaImage::new(3, 2);
    buffer.put_pixel(0, 0, Rgba([0, 0, 0, 255]));
    buffer.put_pixel(1, 0, Rgba([255, 255, 255, 255]));
    buffer.put_pixel(2, 0, Rgba([49, 49, 49, 255]));
    buffer.put_pixel(0, 1, Rgba([50, 0, 0, 255]));
    buffer.put_pixel(1, 1, Rgba([0, 49, 50, 255]));
    buffer.put_pixel(2, 1, Rgba([10, 20, 30, 0]));
    DynamicImage::ImageRgba8(buffer)
}

#[test]
fn dark_pixels_become_walls() {
    assert_eq!(WALL_LIMIT, 50);
    assert_eq!(img_to_vec(&sample()), vec![vec![W, P, W], vec![P, P, W]]);
}

#[test]
fn grid_has_one_row_for_each_pixel_row() {
    let img = DynamicImage::ImageRgba8(RgbaImage::from_pixel(5, 2, Rgba([200, 200, 200, 255])));
    let grid = img_to_vec(&img);
    assert_eq!(grid.len(), 2);
    assert_eq!(grid, vec![vec![P; 5], vec![P; 5]]);
    let none = DynamicImage::ImageRgba8(RgbaImage::new(0, 0));
    assert_eq!(img_to_vec(&none), Vec::<Vec<u8>>::new());
    let flat = DynamicImage::ImageRgba8(RgbaImage::new(0, 3));
    assert_eq!(img_to_vec(&flat), vec![Vec::<u8>::new(); 3]);
}

#[test]
fn grey_images_are_read_by_their_brightness() {
    let mut buffer = GrayImage::new(2, 1);
    buffer.put_pixel(0, 0, Luma([10]));
    buffer.put_pixel(1, 0, Luma([50]));
    assert_eq!(img_to_vec(&DynamicImage::ImageLuma8(buffer)), vec![vec![W, P]]);
}

#[test]
fn image_is_drawn_as_text() {
    assert_eq!(render_img(&sample()), vec![vec!['X', '-', 'X'], vec!['-', '-', 'X']]);
}

#[test]
fn solution_is_drawn_as_text() {
    let maze = vec![vec![W, P, W], vec![W, P, P], vec![W, W, P]];
    let solution = vec![(0, 1), (1, 1), (2, 2)];
    assert_eq!(
        render_maze_solution(&maze, &solution),
        vec![vec!['-', 'X', '-'], vec!['-', 'X', '*'], vec!['-', '-', 'X']]
    );
    assert_eq!(
        render_maze_solution(&maze, &vec![(0, 0)]),
        vec![vec!['-', '*', '-'], vec!['-', '*', '*'], vec!['-', '-', '*']]
    );
}

#[test]
fn solution_is_painted_onto_the_image() {
    assert_eq!(SOLVED_COLOR, (255, 0, 0, 0));
    let before = sample();
    let mut img = before.clone();
    assert!(mark_solution(&mut img, &vec![(1, 2), (0, 0)]));
    assert_eq!(img.dimensions(), (3, 2));
    for y in 0..2 {
        for x in 0..3 {
            if (x, y) == (2, 1) || (x, y) == (0, 0) {
                assert_eq!(img.get_pixel(x, y), Rgba([255, 0, 0, 0]));
            } else {
                assert_eq!(img.get_pixel(x, y), before.get_pixel(x, y));
            }
        }
    }
    // The painted cells are bright enough to read as path.
    assert_eq!(img_to_vec(&img), vec![vec![P, P, W], vec![P, P, P]]);
}

#[test]
fn solution_outside_the_image_paints_nothing() {
    let before = sample();
    let mut img = before.clone();
    assert!(!mark_solution(&mut img, &vec![(0, 1), (2, 0)]));
    assert_eq!(img, before);
    assert!(!mark_solution(&mut img, &vec![(0, 3)]));
    assert_eq!(img, before);
    assert!(mark_solution(&mut img, &vec![]));
    assert_eq!(img, before);
}
