use ppmitzador::utils::idx_to_coords;
use ppmitzador::{Coord, ImagePBM, ImagePPM, Pixel, PpmFormat};

#[test]
fn color_square() {
    let mut sq = ImagePPM::new(255, 255, Pixel::black());
    let w = sq.width();
    for (i, pixel) in sq.atoms_mut().iter_mut().enumerate() {
        let Coord { x, y } = idx_to_coords(i, w);
        pixel.r = x as u8;
        pixel.g = y as u8;
    }

    let doc = sq.encode();
    let header = "P3\n255 255\n255\n";
    assert!(doc.starts_with(header.as_bytes()));
    assert_eq!(doc.len(), header.len() + 255 * 255 * 12);
}

#[test]
fn bw_square() {
    let mut sq = ImagePBM::new(255, 255, false);
    sq.draw_circle(Coord { x: 100, y: 100 }, 30, true);

    let doc = sq.encode();
    let header = "P1\n255 255\n";
    assert!(doc.starts_with(header.as_bytes()));
    assert_eq!(doc.len(), header.len() + 255 * 255);
}
