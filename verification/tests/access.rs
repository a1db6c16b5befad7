use ppmitzador::utils::{coords_to_idx, idx_to_coords};
use ppmitzador::{Coord, ImagePBM, ImagePPM, Pixel, PpmFormat};

#[test]
fn get_after_get_mut_returns_value() {
    let mut img = ImagePPM::new(4, 3, Pixel::black());
    *img.get_mut(2, 1).unwrap() = Pixel::new(9, 8, 7);
    assert_eq!(*img.get(2, 1).unwrap(), Pixel::new(9, 8, 7));
    assert_eq!(*img.get(0, 0).unwrap(), Pixel::black());
    assert_eq!(*img.get(3, 2).unwrap(), Pixel::black());
}

#[test]
fn out_of_bounds_access_returns_none() {
    let mut img = ImagePPM::new(4, 3, Pixel::black());
    assert!(img.get(4, 0).is_none());
    assert!(img.get(0, 3).is_none());
    assert!(img.get(4, 3).is_none());
    assert!(img.get_mut(4, 2).is_none());
    assert!(img.get_mut(1, 3).is_none());
    assert!(img.get(3, 2).is_some());
    assert!(img.get_mut(0, 0).is_some());
}

#[test]
fn out_of_bounds_access_on_monochrome_returns_none() {
    let mut img = ImagePBM::new(2, 2, false);
    assert!(img.get(2, 0).is_none());
    assert!(img.get_mut(0, 2).is_none());
    assert!(img.get(1, 1).is_some());
}

#[test]
fn dimensions_are_reported() {
    let img = ImagePPM::new(7, 5, Pixel::white());
    assert_eq!(img.width(), 7);
    assert_eq!(img.height(), 5);
    assert_eq!(img.atoms().len(), 35);
    let mono = ImagePBM::new(3, 4, true);
    assert_eq!(mono.width(), 3);
    assert_eq!(mono.height(), 4);
    assert_eq!(mono.atoms().len(), 12);
    assert!(mono.atoms().iter().all(|&b| b));
}

#[test]
fn pixel_constants_and_new() {
    assert_eq!(Pixel::black(), Pixel::new(0, 0, 0));
    assert_eq!(Pixel::unit(), Pixel::new(1, 1, 1));
    assert_eq!(Pixel::white(), Pixel::new(255, 255, 255));
    assert_eq!(Pixel::red(), Pixel::new(255, 0, 0));
    assert_eq!(Pixel::green(), Pixel::new(0, 255, 0));
    assert_eq!(Pixel::blue(), Pixel::new(0, 0, 255));
    assert_eq!(Pixel::purple(), Pixel::new(255, 0, 255));
}

#[test]
fn pixel_scaling_wraps_per_channel() {
    assert_eq!(Pixel::unit().mul(77), Pixel::new(77, 77, 77));
    // 200 * 2 == 400, which wraps to 144 in 8-bit arithmetic.
    assert_eq!(Pixel::new(200, 3, 130).mul(2), Pixel::new(144, 6, 4));
    assert_eq!(Pixel::white().mul(0), Pixel::black());
}

#[test]
fn coord_arithmetic() {
    let a = Coord::new(3, 4);
    let b = Coord::new(1, 2);
    assert_eq!(a.add(b), Coord::new(4, 6));
    assert_eq!(a.sub(b), Coord::new(2, 2));
    assert_eq!(Coord::new(0, 0).distance(Coord::new(3, 4)), 5);
    assert_eq!(Coord::new(3, 4).distance(Coord::new(0, 0)), 5);
    assert_eq!(Coord::new(5, 5).distance(Coord::new(5, 5)), 0);
    // The floor of the square root of 2.
    assert_eq!(Coord::new(0, 0).distance(Coord::new(1, 1)), 1);
    assert_eq!(Coord::new(3, 4).abs(), 5);
    assert_eq!(Coord::new(0, 0).abs(), 0);
}

#[test]
fn plain_row_major_index_round_trip() {
    assert_eq!(coords_to_idx(Coord::new(3, 2), 7), 17);
    assert_eq!(idx_to_coords(17, 7), Coord::new(3, 2));
    assert_eq!(idx_to_coords(0, 1), Coord::new(0, 0));
}
