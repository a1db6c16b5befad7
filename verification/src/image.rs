//! The two concrete image types: a full-color canvas and a single-bit
//! monochrome canvas, each supplying the minimal raster contract.

use vstd::prelude::*;

use crate::canvas::{PpmFormat, RasterView};
use crate::pixel::Pixel;

verus! {

/// A canvas of RGB color atoms.
#[derive(Clone, Debug)]
pub struct ImagePPM {
    atoms: Vec<Pixel>,
    width: usize,
    height: usize,
}

/// A canvas of single-bit atoms: `false` for background, `true` for
/// foreground.
#[derive(Clone, Debug)]
pub struct ImagePBM {
    atoms: Vec<bool>,
    width: usize,
    height: usize,
}

impl PpmFormat for ImagePPM {
    type Atom = Pixel;

    closed spec fn raster(&self) -> RasterView<Pixel> {
        RasterView { atoms: self.atoms@, width: self.width as nat, height: self.height as nat }
    }

    fn new(width: usize, height: usize, bg_color: Pixel) -> (img: Self) {
        let n: usize = width * height;
        let mut atoms: Vec<Pixel> = Vec::new();
        while atoms.len() < n
            invariant
                atoms.len() <= n,
                forall|i: int| 0 <= i < atoms.len() ==> atoms@[i] == bg_color,
            decreases n - atoms.len(),
        {
            atoms.push(bg_color);
        }
        ImagePPM { atoms, width, height }
    }

    fn width(&self) -> usize {
        self.width
    }

    fn height(&self) -> usize {
        self.height
    }

    fn atoms(&self) -> &Vec<Pixel> {
        &self.atoms
    }

    fn atoms_mut(&mut self) -> &mut Vec<Pixel> {
        &mut self.atoms
    }
}

impl PpmFormat for ImagePBM {
    type Atom = bool;

    closed spec fn raster(&self) -> RasterView<bool> {
        RasterView { atoms: self.atoms@, width: self.width as nat, height: self.height as nat }
    }

    fn new(width: usize, height: usize, bg_color: bool) -> (img: Self) {
        let n: usize = width * height;
        let mut atoms: Vec<bool> = Vec::new();
        while atoms.len() < n
            invariant
                atoms.len() <= n,
                forall|i: int| 0 <= i < atoms.len() ==> atoms@[i] == bg_color,
            decreases n - atoms.len(),
        {
            atoms.push(bg_color);
        }
        ImagePBM { atoms, width, height }
    }

    fn width(&self) -> usize {
        self.width
    }

    fn height(&self) -> usize {
        self.height
    }

    fn atoms(&self) -> &Vec<bool> {
        &self.atoms
    }

    fn atoms_mut(&mut self) -> &mut Vec<bool> {
        &mut self.atoms
    }
}

} // verus!
