use ppmitzador::{Coord, ImagePBM, ImagePPM, Pixel, PpmFormat};

#[test]
fn coincident_line_sets_exactly_one_pixel() {
    let mut img = ImagePPM::new(5, 5, Pixel::black());
    img.draw_line(Coord::new(2, 3), Coord::new(2, 3), Pixel::red());
    for y in 0..5 {
        for x in 0..5 {
            let expected = if (x, y) == (2, 3) { Pixel::red() } else { Pixel::black() };
            assert_eq!(*img.get(x, y).unwrap(), expected);
        }
    }
}

#[test]
fn horizontal_line_fills_the_row() {
    let mut img = ImagePPM::new(5, 3, Pixel::black());
    img.draw_line(Coord::new(0, 1), Coord::new(4, 1), Pixel::blue());
    for y in 0..3 {
        for x in 0..5 {
            let expected = if y == 1 { Pixel::blue() } else { Pixel::black() };
            assert_eq!(*img.get(x, y).unwrap(), expected);
        }
    }
}

#[test]
fn diagonal_line_steps_through_the_diagonal() {
    let mut img = ImagePPM::new(3, 3, Pixel::black());
    img.draw_line(Coord::new(0, 0), Coord::new(2, 2), Pixel::green());
    // The distance rounds down to 2, so the steps land on the diagonal.
    for y in 0..3 {
        for x in 0..3 {
            let expected = if x == y { Pixel::green() } else { Pixel::black() };
            assert_eq!(*img.get(x, y).unwrap(), expected);
        }
    }
}

#[test]
fn circle_fills_exactly_its_box() {
    let mut img = ImagePBM::new(8, 8, false);
    // Near the high edge: radius 4 gives half-radius 2, a box over
    // x in [4, 8) and y in [3, 7), which still fits.
    img.draw_circle(Coord::new(6, 5), 4, true);
    for y in 0..8 {
        for x in 0..8 {
            let inside = (4..8).contains(&x) && (3..7).contains(&y);
            assert_eq!(*img.get(x, y).unwrap(), inside, "at ({}, {})", x, y);
        }
    }
}

#[test]
fn circle_near_origin_is_clamped_to_zero() {
    let mut img = ImagePBM::new(8, 8, false);
    // Half-radius 2 around (1, 1): the low side clamps to zero.
    img.draw_circle(Coord::new(1, 1), 4, true);
    for y in 0..8 {
        for x in 0..8 {
            let inside = x < 3 && y < 3;
            assert_eq!(*img.get(x, y).unwrap(), inside, "at ({}, {})", x, y);
        }
    }
}

#[test]
fn odd_radius_rounds_down_to_even_box() {
    let mut img = ImagePBM::new(9, 9, false);
    // Radius 5 gives half-radius 2: a box of side 4, not 5.
    img.draw_circle(Coord::new(4, 4), 5, true);
    for y in 0..9 {
        for x in 0..9 {
            let inside = (2..6).contains(&x) && (2..6).contains(&y);
            assert_eq!(*img.get(x, y).unwrap(), inside, "at ({}, {})", x, y);
        }
    }
}

#[test]
fn zero_radius_circle_draws_nothing() {
    let mut img = ImagePBM::new(4, 4, false);
    img.draw_circle(Coord::new(2, 2), 0, true);
    img.draw_circle(Coord::new(2, 2), 1, true);
    for y in 0..4 {
        for x in 0..4 {
            assert_eq!(*img.get(x, y).unwrap(), false);
        }
    }
}

#[test]
fn thick_line_stamps_circles_along_the_segment() {
    let mut img = ImagePPM::new(7, 7, Pixel::black());
    img.draw_line_with_thickness(Coord::new(2, 3), Coord::new(4, 3), Pixel::white(), 2);
    // Distance 2: stamps of half-radius 1 at (2,3), (3,3) and (4,3) cover
    // x in [1, 5) and y in [2, 4); the endpoint itself is set as well.
    for y in 0..7 {
        for x in 0..7 {
            let inside = (1..5).contains(&x) && (2..4).contains(&y);
            let expected = if inside { Pixel::white() } else { Pixel::black() };
            assert_eq!(*img.get(x, y).unwrap(), expected, "at ({}, {})", x, y);
        }
    }
}

#[test]
fn thick_line_on_coincident_endpoints_stamps_one_circle() {
    let mut img = ImagePPM::new(6, 6, Pixel::black());
    img.draw_line_with_thickness(Coord::new(3, 3), Coord::new(3, 3), Pixel::red(), 2);
    for y in 0..6 {
        for x in 0..6 {
            let inside = (2..4).contains(&x) && (2..4).contains(&y);
            let expected = if inside { Pixel::red() } else { Pixel::black() };
            assert_eq!(*img.get(x, y).unwrap(), expected, "at ({}, {})", x, y);
        }
    }
}
