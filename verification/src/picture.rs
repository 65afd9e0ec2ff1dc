//! The bridge between images and grids: a dark pixel is a wall, any other
//! pixel is path, and the cells of a solution are painted back onto the
//! image.

use crate::constants::{PATH, SOLVED_COLOR, WALL, WALL_LIMIT};
use crate::grid::Coord;
use image::{DynamicImage, GenericImage, GenericImageView, Rgba};
use vstd::prelude::*;

verus! {

/// Declares `image::DynamicImage`. The library hands images through and
/// never looks inside one.
#[verifier::external_type_specification]
#[verifier::external_body]
pub struct ExDynamicImage(image::DynamicImage);

/// The width and the height of an image, in this order.
pub uninterp spec fn image_size(img: DynamicImage) -> (u32, u32);

/// The pixels of an image, by column and row, each as its red, green, blue
/// and alpha channel.
pub uninterp spec fn image_pixels(img: DynamicImage) -> Map<(u32, u32), (u8, u8, u8, u8)>;

/// What a pixel of `img` holds once `color` has been put there: the
/// image keeps a colour in its own pixel format, so what is read back
/// depends on the kind of image and on the colour, and on nothing else.
pub uninterp spec fn stored_color(img: DynamicImage, color: (u8, u8, u8, u8)) -> (u8, u8, u8, u8);

/// Calls `DynamicImage::width`. The contract names what it returns as the
/// first part of `image_size`.
#[verifier::external_body]
fn image_width(img: &DynamicImage) -> (w: u32)
    ensures
        w == image_size(*img).0,
{
    img.width()
}

/// Calls `DynamicImage::height`. The contract names what it returns as the
/// second part of `image_size`.
#[verifier::external_body]
fn image_height(img: &DynamicImage) -> (h: u32)
    ensures
        h == image_size(*img).1,
{
    img.height()
}

/// Calls `GenericImageView::get_pixel` on a `DynamicImage`, which panics
/// outside the image: the contract asks for a position inside it, and
/// names the four channels it returns as the entry of `image_pixels` at
/// that position.
#[verifier::external_body]
fn image_pixel(img: &DynamicImage, x: u32, y: u32) -> (p: (u8, u8, u8, u8))
    requires
        x < image_size(*img).0,
        y < image_size(*img).1,
    ensures
        p == image_pixels(*img)[(x, y)],
{
    let pixel = img.get_pixel(x, y);
    (pixel.0[0], pixel.0[1], pixel.0[2], pixel.0[3])
}

/// Calls `GenericImage::put_pixel` on a `DynamicImage`, which panics
/// outside the image: the contract asks for a position inside it. It
/// claims that the image keeps its size, that every other pixel stays as
/// it was, that the pixel at the position now holds what `stored_color`
/// names, and that the image stores colours as it did before.
#[verifier::external_body]
fn image_put_pixel(img: &mut DynamicImage, x: u32, y: u32, color: (u8, u8, u8, u8))
    requires
        x < image_size(*old(img)).0,
        y < image_size(*old(img)).1,
    ensures
        image_size(*final(img)) == image_size(*old(img)),
        image_pixels(*final(img))[(x, y)] == stored_color(*old(img), color),
        forall|a: u32, b: u32|
            a < image_size(*old(img)).0 && b < image_size(*old(img)).1 && (a, b) != (x, y)
                ==> #[trigger] image_pixels(*final(img))[(a, b)] == image_pixels(*old(img))[(a, b)],
        forall|c: (u8, u8, u8, u8)| #[trigger]
            stored_color(*final(img), c) == stored_color(*old(img), c),
{
    img.put_pixel(x, y, Rgba([color.0, color.1, color.2, color.3]));
}

/// The cell state that a pixel stands for: a wall where red, green and
/// blue are all dark, path otherwise.
pub open spec fn cell_state(pixel: (u8, u8, u8, u8)) -> u8 {
    if pixel.0 < WALL_LIMIT && pixel.1 < WALL_LIMIT && pixel.2 < WALL_LIMIT {
        WALL
    } else {
        PATH
    }
}

/// The grid that an image stands for: one row for each pixel row, one cell
/// for each pixel.
pub open spec fn image_grid(img: DynamicImage) -> Seq<Seq<u8>> {
    Seq::new(
        image_size(img).1 as nat,
        |y: int|
            Seq::new(
                image_size(img).0 as nat,
                |x: int| cell_state(image_pixels(img)[(x as u32, y as u32)]),
            ),
    )
}

/// Reads an image into a grid.
pub fn img_to_vec(img: &DynamicImage) -> (matrix: Vec<Vec<u8>>)
    ensures
        matrix.deep_view() == image_grid(*img),
{
    let width = image_width(img);
    let height = image_height(img);
    let mut matrix: Vec<Vec<u8>> = Vec::new();
    let mut line: u32 = 0;
    while line < height
        invariant
            width == image_size(*img).0,
            height == image_size(*img).1,
            line <= height,
            matrix@.len() == line,
            forall|y: int|
                0 <= y < line ==> (#[trigger] matrix@[y])@ == Seq::new(
                    width as nat,
                    |x: int| cell_state(image_pixels(*img)[(x as u32, y as u32)]),
                ),
        decreases height - line,
    {
        let mut row: Vec<u8> = Vec::new();
        let mut col: u32 = 0;
        while col < width
            invariant
                width == image_size(*img).0,
                height == image_size(*img).1,
                line < height,
                col <= width,
                row@.len() == col,
                forall|x: int|
                    0 <= x < col ==> #[trigger] row@[x] == cell_state(
                        image_pixels(*img)[(x as u32, line)],
                    ),
            decreases width - col,
        {
            let pixel = image_pixel(img, col, line);
            if pixel.0 < WALL_LIMIT && pixel.1 < WALL_LIMIT && pixel.2 < WALL_LIMIT {
                row.push(WALL);
            } else {
                row.push(PATH);
            }
            col += 1;
        }
        assert(row@ =~= Seq::new(
            width as nat,
            |x: int| cell_state(image_pixels(*img)[(x as u32, line as int as u32)]),
        ));
        matrix.push(row);
        line += 1;
    }
    assert(matrix.deep_view() =~~= image_grid(*img));
    matrix
}

/// The character that shows a cell state on a terminal: `X` for a wall,
/// `-` for anything else.
pub open spec fn cell_char(state: u8) -> char {
    if state == WALL {
        'X'
    } else {
        '-'
    }
}

/// Draws an image as text, one row of characters for each pixel row: `X`
/// for a wall, `-` for path.
pub fn render_img(img: &DynamicImage) -> (text: Vec<Vec<char>>)
    ensures
        text@.len() == image_grid(*img).len(),
        forall|r: int|
            0 <= r < text@.len() ==> (#[trigger] text@[r])@ == image_grid(*img)[r].map_values(
                |state: u8| cell_char(state),
            ),
{
    let matrix = img_to_vec(img);
    let ghost g = image_grid(*img);
    let mut text: Vec<Vec<char>> = Vec::new();
    let mut r: usize = 0;
    while r < matrix.len()
        invariant
            g == matrix.deep_view(),
            g.len() == matrix@.len(),
            r <= matrix@.len(),
            text@.len() == r,
            forall|k: int|
                0 <= k < r ==> (#[trigger] text@[k])@ == g[k].map_values(
                    |state: u8| cell_char(state),
                ),
        decreases matrix@.len() - r,
    {
        let mut row: Vec<char> = Vec::new();
        let mut c: usize = 0;
        assert(g[r as int] =~= matrix@[r as int]@);
        while c < matrix[r].len()
            invariant
                r < matrix@.len(),
                c <= matrix@[r as int]@.len(),
                row@.len() == c,
                forall|k: int|
                    0 <= k < c ==> #[trigger] row@[k] == cell_char(matrix@[r as int]@[k]),
            decreases matrix@[r as int]@.len() - c,
        {
            if matrix[r][c] == WALL {
                row.push('X');
            } else {
                row.push('-');
            }
            c += 1;
        }
        assert(row@ =~= g[r as int].map_values(|state: u8| cell_char(state)));
        text.push(row);
        r += 1;
    }
    text
}

/// The character that shows a cell of a solved maze: `-` for a wall, `X`
/// for a cell of the solution, `*` for any other cell.
pub open spec fn solution_char(g: Seq<Seq<u8>>, solution: Seq<Coord>, p: Coord) -> char {
    if g[p.0 as int][p.1 as int] == WALL {
        '-'
    } else if solution.contains(p) {
        'X'
    } else {
        '*'
    }
}

/// Whether `solution` holds `p`.
pub fn holds(solution: &Vec<Coord>, p: Coord) -> (b: bool)
    ensures
        b == solution@.contains(p),
{
    let mut i: usize = 0;
    while i < solution.len()
        invariant
            i <= solution@.len(),
            forall|k: int| 0 <= k < i ==> solution@[k] != p,
        decreases solution@.len() - i,
    {
        if solution[i].0 == p.0 && solution[i].1 == p.1 {
            return true;
        }
        i += 1;
    }
    false
}

/// Draws a maze and a solution as text, one row of characters for each
/// row of the maze: `-` for a wall, `X` for a cell that the solution
/// holds, `*` for a cell that it does not.
pub fn render_maze_solution(maze: &Vec<Vec<u8>>, solution: &Vec<Coord>) -> (text: Vec<Vec<char>>)
    ensures
        text@.len() == maze@.len(),
        forall|r: int| 0 <= r < text@.len() ==> (#[trigger] text@[r])@.len() == maze@[r]@.len(),
        forall|r: int, c: int|
            0 <= r < text@.len() && 0 <= c < text@[r]@.len() ==> (#[trigger] text@[r]@[c])
                == solution_char(maze.deep_view(), solution@, (r as usize, c as usize)),
{
    let ghost g = maze.deep_view();
    let mut text: Vec<Vec<char>> = Vec::new();
    let mut i: usize = 0;
    while i < maze.len()
        invariant
            g == maze.deep_view(),
            i <= maze@.len(),
            text@.len() == i,
            forall|r: int| 0 <= r < i ==> (#[trigger] text@[r])@.len() == maze@[r]@.len(),
            forall|r: int, c: int|
                0 <= r < i && 0 <= c < text@[r]@.len() ==> (#[trigger] text@[r]@[c])
                    == solution_char(g, solution@, (r as usize, c as usize)),
        decreases maze@.len() - i,
    {
        let mut row: Vec<char> = Vec::new();
        let mut j: usize = 0;
        assert(g[i as int] =~= maze@[i as int]@);
        while j < maze[i].len()
            invariant
                g == maze.deep_view(),
                i < maze@.len(),
                g[i as int] == maze@[i as int]@,
                j <= maze@[i as int]@.len(),
                row@.len() == j,
                forall|c: int|
                    0 <= c < j ==> (#[trigger] row@[c]) == solution_char(
                        g,
                        solution@,
                        (i, c as usize),
                    ),
            decreases maze@[i as int]@.len() - j,
        {
            if maze[i][j] == WALL {
                row.push('-');
            } else if holds(solution, (i, j)) {
                row.push('X');
            } else {
                row.push('*');
            }
            j += 1;
        }
        text.push(row);
        i += 1;
    }
    text
}

/// Whether every cell of `solution` is a pixel of an image of the given
/// size: its row lies below the height, its column below the width.
pub open spec fn fits_image(size: (u32, u32), solution: Seq<Coord>) -> bool {
    forall|i: int|
        0 <= i < solution.len() ==> (#[trigger] solution[i]).0 < size.1 && solution[i].1 < size.0
}

/// Paints the cells of `solution` onto the image in the solution colour.
/// A cell `(row, column)` is the pixel at column `column`, row `row`. When
/// a cell lies outside the image, nothing is painted and the answer is
/// `false`.
#[verifier::rlimit(40)]
pub fn mark_solution(img: &mut DynamicImage, solution: &Vec<Coord>) -> (done: bool)
    ensures
        done == fits_image(image_size(*old(img)), solution@),
        !done ==> *final(img) == *old(img),
        image_size(*final(img)) == image_size(*old(img)),
        forall|c: (u8, u8, u8, u8)| #[trigger]
            stored_color(*final(img), c) == stored_color(*old(img), c),
        done ==> forall|a: u32, b: u32|
            a < image_size(*old(img)).0 && b < image_size(*old(img)).1 ==> #[trigger] image_pixels(
                *final(img),
            )[(a, b)] == (if solution@.contains((b as usize, a as usize)) {
                stored_color(*old(img), SOLVED_COLOR)
            } else {
                image_pixels(*old(img))[(a, b)]
            }),
{
    let width = image_width(img);
    let height = image_height(img);
    let mut i: usize = 0;
    while i < solution.len()
        invariant
            *img == *old(img),
            width == image_size(*img).0,
            height == image_size(*img).1,
            i <= solution@.len(),
            forall|k: int|
                0 <= k < i ==> (#[trigger] solution@[k]).0 < height && solution@[k].1 < width,
        decreases solution@.len() - i,
    {
        let (x, y) = solution[i];
        if x >= height as usize || y >= width as usize {
            return false;
        }
        i += 1;
    }
    let mut i: usize = 0;
    while i < solution.len()
        invariant
            width == image_size(*old(img)).0,
            height == image_size(*old(img)).1,
            image_size(*img) == image_size(*old(img)),
            forall|c: (u8, u8, u8, u8)| #[trigger]
                stored_color(*img, c) == stored_color(*old(img), c),
            fits_image(image_size(*old(img)), solution@),
            i <= solution@.len(),
            forall|a: u32, b: u32|
                a < width && b < height ==> #[trigger] image_pixels(*img)[(a, b)] == (if solution@
                    .take(i as int).contains((b as usize, a as usize)) {
                    stored_color(*old(img), SOLVED_COLOR)
                } else {
                    image_pixels(*old(img))[(a, b)]
                }),
        decreases solution@.len() - i,
    {
        let (x, y) = solution[i];
        let ghost seen = solution@.take(i as int);
        let ghost next = solution@.take(i + 1);
        proof {
            assert forall|q: Coord| next.contains(q) <==> (seen.contains(q) || q == (x, y)) by {
                if seen.contains(q) {
                    let k = choose|k: int| 0 <= k < seen.len() && seen[k] == q;
                    assert(next[k] == q);
                }
                if q == (x, y) {
                    assert(next[i as int] == q);
                }
                if next.contains(q) {
                    let k = choose|k: int| 0 <= k < next.len() && next[k] == q;
                    if k < i {
                        assert(seen[k] == q);
                    }
                }
            }
        }
        let ghost before = *img;
        image_put_pixel(img, y as u32, x as u32, SOLVED_COLOR);
        proof {
            assert forall|a: u32, b: u32| a < width && b < height implies #[trigger] image_pixels(
                *img,
            )[(a, b)] == (if next.contains((b as usize, a as usize)) {
                stored_color(*old(img), SOLVED_COLOR)
            } else {
                image_pixels(*old(img))[(a, b)]
            }) by {
                let q = (b as usize, a as usize);
                assert(next.contains(q) <==> (seen.contains(q) || q == (x, y)));
                if (a, b) != (y as u32, x as u32) {
                    assert(image_pixels(*img)[(a, b)] == image_pixels(before)[(a, b)]);
                }
            }
        }
        i += 1;
    }
    assert(solution@.take(solution@.len() as int) =~= solution@);
    true
}

} // verus!
