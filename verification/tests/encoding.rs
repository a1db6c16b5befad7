use ppmitzador::{Coord, ImagePBM, ImagePPM, Pixel, PpmFormat};

#[test]
fn color_document_matches_hand_computed_text() {
    let mut img = ImagePPM::new(2, 1, Pixel::black());
    *img.get_mut(0, 0).unwrap() = Pixel::new(1, 22, 255);
    *img.get_mut(1, 0).unwrap() = Pixel::new(7, 0, 10);
    let expected = "P3\n2 1\n255\n  1  22 255\n  7   0  10\n";
    assert_eq!(img.encode(), expected.as_bytes().to_vec());
}

#[test]
fn purple_square_with_white_border_and_black_center() {
    let mut img = ImagePPM::new(3, 3, Pixel::purple());
    for y in 0..3 {
        for x in 0..3 {
            let atom = if (x, y) == (1, 1) { Pixel::black() } else { Pixel::white() };
            *img.get_mut(x, y).unwrap() = atom;
        }
    }
    let white = "255 255 255\n";
    let black = "  0   0   0\n";
    let mut expected = String::from("P3\n3 3\n255\n");
    for line in 0..9 {
        expected.push_str(if line == 4 { black } else { white });
    }
    assert_eq!(img.encode(), expected.as_bytes().to_vec());
}

#[test]
fn origin_write_lands_in_the_bottom_row_block() {
    let mut img = ImagePPM::new(2, 2, Pixel::red());
    *img.get_mut(0, 0).unwrap() = Pixel::blue();
    let red = "255   0   0\n";
    let blue = "  0   0 255\n";
    let expected = format!("P3\n2 2\n255\n{}{}{}{}", red, red, blue, red);
    assert_eq!(img.encode(), expected.as_bytes().to_vec());

    // Everything before the last row block matches the untouched canvas.
    let fresh = ImagePPM::new(2, 2, Pixel::red());
    let touched = img.encode();
    let untouched = fresh.encode();
    assert_eq!(touched.len(), untouched.len());
    let last_block = touched.len() - 2 * 12;
    assert_eq!(touched[..last_block], untouched[..last_block]);
}

#[test]
fn monochrome_document_uses_zero_for_background() {
    let mut img = ImagePBM::new(2, 2, false);
    *img.get_mut(0, 0).unwrap() = true;
    // Storage goes top row first, so the bottom-left cell is the third digit.
    assert_eq!(img.encode(), b"P1\n2 2\n0010".to_vec());
}

#[test]
fn monochrome_document_uses_one_for_foreground_background() {
    let img = ImagePBM::new(3, 1, true);
    assert_eq!(img.encode(), b"P1\n3 1\n111".to_vec());
}

#[test]
fn monochrome_circle_digits_stay_inside_the_box() {
    let mut img = ImagePBM::new(255, 255, false);
    img.draw_circle(Coord::new(100, 100), 30, true);
    let doc = img.encode();
    let header = "P1\n255 255\n";
    assert!(doc.starts_with(header.as_bytes()));
    let body = &doc[header.len()..];
    assert_eq!(body.len(), 255 * 255);
    for (i, &ch) in body.iter().enumerate() {
        let x = i % 255;
        let y = 254 - i / 255;
        let inside = (85..115).contains(&x) && (85..115).contains(&y);
        assert_eq!(ch, if inside { b'1' } else { b'0' }, "at ({}, {})", x, y);
    }
}

#[test]
fn encoding_twice_yields_identical_output() {
    let mut img = ImagePPM::new(4, 4, Pixel::green());
    img.draw_line(Coord::new(0, 0), Coord::new(3, 3), Pixel::black());
    assert_eq!(img.encode(), img.encode());

    let mut mono = ImagePBM::new(4, 4, false);
    mono.draw_circle(Coord::new(2, 2), 4, true);
    assert_eq!(mono.encode(), mono.encode());
}

#[test]
fn header_dimensions_use_plain_decimal() {
    let img = ImagePPM::new(10, 107, Pixel::black());
    let doc = img.encode();
    assert!(doc.starts_with("P3\n10 107\n255\n".as_bytes()));
    let mono = ImagePBM::new(1, 9, false);
    assert_eq!(mono.encode(), b"P1\n1 9\n000000000".to_vec());
}
