//! Text serialization of a canvas to the plain-text bitmap interchange
//! formats.
//!
//! The color encoding starts with the header line `P3`, then
//! `<width> <height>`, then the maximum channel value `255`; each atom
//! follows on a line of its own as three three-character, right-justified,
//! space-padded decimal channel values separated by single spaces. The
//! monochrome encoding starts with the header line `P1`, then
//! `<width> <height>`; the atoms follow as one digit each with no
//! separators, `'0'` for `false` (background) and `'1'` for `true`
//! (foreground). Both emit atoms in storage order: top row to bottom row,
//! left to right within a row.

use vstd::prelude::*;

use crate::canvas::{lemma_idx_in_range, PpmFormat, RasterView};
use crate::image::{ImagePBM, ImagePPM};
use crate::pixel::Pixel;

verus! {

/// The ASCII digit of `d`, for `0 <= d <= 9`.
pub open spec fn digit(d: int) -> u8 {
    (48 + d) as u8
}

/// The ASCII decimal digits of `n`, most significant first.
pub open spec fn dec_digits(n: int) -> Seq<u8>
    decreases n,
{
    if n < 10 {
        seq![digit(n)]
    } else {
        dec_digits(n / 10).push(digit(n % 10))
    }
}

/// `n` as three ASCII characters, right-justified and space-padded.
pub open spec fn dec3(n: u8) -> Seq<u8> {
    if n < 10 {
        seq![32u8, 32u8, digit(n as int)]
    } else if n < 100 {
        seq![32u8, digit(n as int / 10), digit(n as int % 10)]
    } else {
        seq![digit(n as int / 100), digit((n as int / 10) % 10), digit(n as int % 10)]
    }
}

/// One encoded text line of a color atom: the three padded channel values
/// separated by single spaces, then a line break. Always 12 bytes.
pub open spec fn pixel_line(p: Pixel) -> Seq<u8> {
    dec3(p.r) + seq![32u8] + dec3(p.g) + seq![32u8] + dec3(p.b) + seq![10u8]
}

/// The encoded body of a color canvas: one line per atom, in storage order.
pub open spec fn ppm_body(atoms: Seq<Pixel>) -> Seq<u8>
    decreases atoms.len(),
{
    if atoms.len() == 0 {
        Seq::empty()
    } else {
        ppm_body(atoms.drop_last()) + pixel_line(atoms.last())
    }
}

/// The color header: `P3`, the dimensions, and the maximum channel value
/// `255`, each on a line of its own.
pub open spec fn ppm_header(w: int, h: int) -> Seq<u8> {
    seq![80u8, 51u8, 10u8] + dec_digits(w) + seq![32u8] + dec_digits(h) + seq![10u8] + seq![
        50u8,
        53u8,
        53u8,
        10u8,
    ]
}

/// The full encoded color document.
pub open spec fn ppm_encoding(atoms: Seq<Pixel>, w: int, h: int) -> Seq<u8> {
    ppm_header(w, h) + ppm_body(atoms)
}

/// The digit of a monochrome atom: `'0'` for background (`false`), `'1'`
/// for foreground (`true`).
pub open spec fn bit_char(b: bool) -> u8 {
    if b {
        49u8
    } else {
        48u8
    }
}

/// The encoded body of a monochrome canvas: one digit per atom with no
/// separators, in storage order.
pub open spec fn pbm_body(atoms: Seq<bool>) -> Seq<u8>
    decreases atoms.len(),
{
    if atoms.len() == 0 {
        Seq::empty()
    } else {
        pbm_body(atoms.drop_last()).push(bit_char(atoms.last()))
    }
}

/// The monochrome header: `P1`, then the dimensions.
pub open spec fn pbm_header(w: int, h: int) -> Seq<u8> {
    seq![80u8, 49u8, 10u8] + dec_digits(w) + seq![32u8] + dec_digits(h) + seq![10u8]
}

/// The full encoded monochrome document.
pub open spec fn pbm_encoding(atoms: Seq<bool>, w: int, h: int) -> Seq<u8> {
    pbm_header(w, h) + pbm_body(atoms)
}

/// Every encoded color atom takes exactly 12 bytes.
pub proof fn lemma_ppm_body_len(atoms: Seq<Pixel>)
    ensures
        ppm_body(atoms).len() == 12 * atoms.len(),
    decreases atoms.len(),
{
    if atoms.len() > 0 {
        lemma_ppm_body_len(atoms.drop_last());
        assert(pixel_line(atoms.last()).len() == 12);
    }
}

/// Every encoded monochrome atom takes exactly one byte.
pub proof fn lemma_pbm_body_len(atoms: Seq<bool>)
    ensures
        pbm_body(atoms).len() == atoms.len(),
    decreases atoms.len(),
{
    if atoms.len() > 0 {
        lemma_pbm_body_len(atoms.drop_last());
    }
}

/// The encoded body of a concatenation is the concatenation of the encoded
/// bodies: each atom owns its own segment of the document.
pub proof fn lemma_ppm_body_concat(s1: Seq<Pixel>, s2: Seq<Pixel>)
    ensures
        ppm_body(s1 + s2) == ppm_body(s1) + ppm_body(s2),
    decreases s2.len(),
{
    if s2.len() == 0 {
        assert(s1 + s2 =~= s1);
        assert(ppm_body(s1) + ppm_body(s2) =~= ppm_body(s1));
    } else {
        lemma_ppm_body_concat(s1, s2.drop_last());
        assert((s1 + s2).drop_last() =~= s1 + s2.drop_last());
        assert((s1 + s2).last() == s2.last());
        assert(ppm_body(s1) + ppm_body(s2.drop_last()) + pixel_line(s2.last()) =~= ppm_body(s1) + (
        ppm_body(s2.drop_last()) + pixel_line(s2.last())));
    }
}

/// Writing at coordinate `(0, 0)` — the bottom-left origin — of a
/// well-formed color canvas changes the encoded document only within the
/// final row block: the document keeps its length, and every byte before
/// the last `12 * width` positions is unchanged.
pub proof fn lemma_origin_write_in_last_row(v: RasterView<Pixel>, p: Pixel)
    requires
        v.wf(),
        v.width > 0,
        v.height > 0,
    ensures
        ({
            let before = ppm_encoding(v.atoms, v.width as int, v.height as int);
            let after = ppm_encoding(v.write(0, 0, p).atoms, v.width as int, v.height as int);
            &&& after.len() == before.len()
            &&& 12 * v.width <= before.len()
            &&& forall|i: int| 0 <= i < before.len() - 12 * v.width ==> after[i] == before[i]
        }),
{
    let w = v.width as int;
    let h = v.height as int;
    let j = v.idx(0, 0);
    assert(j == (h - 1) * w);
    lemma_idx_in_range(w, h, 0, 0);
    let s = v.atoms;
    let s2 = v.write(0, 0, p).atoms;
    let tail1 = seq![s[j]] + s.skip(j + 1);
    let tail2 = seq![p] + s.skip(j + 1);
    assert(s =~= s.take(j) + tail1);
    assert(s2 =~= s.take(j) + tail2);
    lemma_ppm_body_concat(s.take(j), tail1);
    lemma_ppm_body_concat(s.take(j), tail2);
    lemma_ppm_body_len(s.take(j));
    lemma_ppm_body_len(s);
    lemma_ppm_body_len(s2);
    lemma_ppm_body_len(tail1);
    lemma_ppm_body_len(tail2);
    let hdr = ppm_header(w, h);
    let before = ppm_encoding(s, w, h);
    let after = ppm_encoding(s2, w, h);
    assert(12 * j == 12 * (w * h) - 12 * w) by (nonlinear_arith)
        requires
            j == (h - 1) * w,
    ;
    assert(before.len() == hdr.len() + 12 * (w * h));
    assert(before.len() - 12 * w == hdr.len() + 12 * j);
    assert forall|i: int| 0 <= i < before.len() - 12 * v.width implies after[i] == before[i] by {
        if i < hdr.len() {
            assert(before[i] == hdr[i]);
            assert(after[i] == hdr[i]);
        } else {
            assert(before[i] == ppm_body(s)[i - hdr.len()]);
            assert(after[i] == ppm_body(s2)[i - hdr.len()]);
            assert(ppm_body(s)[i - hdr.len()] == ppm_body(s.take(j))[i - hdr.len()]);
            assert(ppm_body(s2)[i - hdr.len()] == ppm_body(s.take(j))[i - hdr.len()]);
        }
    }
}

/// Serializing the same color canvas twice without mutation yields
/// identical output both times: the encoding is a function of the canvas
/// model alone.
pub proof fn lemma_ppm_encode_deterministic(
    v: RasterView<Pixel>,
    out1: Seq<u8>,
    out2: Seq<u8>,
)
    requires
        out1 == ppm_encoding(v.atoms, v.width as int, v.height as int),
        out2 == ppm_encoding(v.atoms, v.width as int, v.height as int),
    ensures
        out1 == out2,
{
}

/// Serializing the same monochrome canvas twice without mutation yields
/// identical output both times.
pub proof fn lemma_pbm_encode_deterministic(
    v: RasterView<bool>,
    out1: Seq<u8>,
    out2: Seq<u8>,
)
    requires
        out1 == pbm_encoding(v.atoms, v.width as int, v.height as int),
        out2 == pbm_encoding(v.atoms, v.width as int, v.height as int),
    ensures
        out1 == out2,
{
}

/// Appends the decimal digits of `n` to `out`.
fn push_dec(out: &mut Vec<u8>, n: usize)
    ensures
        final(out)@ == old(out)@ + dec_digits(n as int),
    decreases n,
{
    if n < 10 {
        out.push(48 + (n as u8));
        proof {
            assert(out@ =~= old(out)@ + dec_digits(n as int));
        }
    } else {
        push_dec(out, n / 10);
        out.push(48 + ((n % 10) as u8));
        proof {
            assert(out@ =~= old(out)@ + dec_digits(n as int));
        }
    }
}

/// Appends `n` as three right-justified, space-padded characters to `out`.
fn push_dec3(out: &mut Vec<u8>, n: u8)
    ensures
        final(out)@ == old(out)@ + dec3(n),
{
    if n < 10 {
        out.push(32);
        out.push(32);
        out.push(48 + n);
    } else if n < 100 {
        out.push(32);
        out.push(48 + n / 10);
        out.push(48 + n % 10);
    } else {
        out.push(48 + n / 100);
        out.push(48 + (n / 10) % 10);
        out.push(48 + n % 10);
    }
    proof {
        assert(out@ =~= old(out)@ + dec3(n));
    }
}

impl ImagePPM {
    /// Renders the canvas as a complete color document.
    pub fn encode(&self) -> (out: Vec<u8>)
        ensures
            out@ == ppm_encoding(
                self.raster().atoms,
                self.raster().width as int,
                self.raster().height as int,
            ),
    {
        let ghost gw = self.raster().width as int;
        let ghost gh = self.raster().height as int;
        let mut out: Vec<u8> = Vec::new();
        out.push(80);
        out.push(51);
        out.push(10);
        push_dec(&mut out, self.width());
        out.push(32);
        push_dec(&mut out, self.height());
        out.push(10);
        out.push(50);
        out.push(53);
        out.push(53);
        out.push(10);
        proof {
            assert(out@ =~= ppm_header(gw, gh));
        }
        let a = self.atoms();
        let mut i: usize = 0;
        while i < a.len()
            invariant
                i <= a.len(),
                a@ == self.raster().atoms,
                gw == self.raster().width as int,
                gh == self.raster().height as int,
                out@ == ppm_header(gw, gh) + ppm_body(a@.take(i as int)),
            decreases a.len() - i,
        {
            let p = a[i];
            push_dec3(&mut out, p.r);
            out.push(32);
            push_dec3(&mut out, p.g);
            out.push(32);
            push_dec3(&mut out, p.b);
            out.push(10);
            proof {
                let ghost line = pixel_line(a@[i as int]);
                assert(a@.take(i as int + 1).drop_last() =~= a@.take(i as int));
                assert(a@.take(i as int + 1).last() == a@[i as int]);
                assert(ppm_body(a@.take(i as int + 1)) == ppm_body(a@.take(i as int)) + line);
                assert(out@ =~= (ppm_header(gw, gh) + ppm_body(a@.take(i as int))) + line);
                assert(out@ =~= ppm_header(gw, gh) + ppm_body(a@.take(i as int + 1)));
            }
            i = i + 1;
        }
        proof {
            assert(a@.take(a@.len() as int) =~= a@);
        }
        out
    }
}

impl ImagePBM {
    /// Renders the canvas as a complete monochrome document.
    pub fn encode(&self) -> (out: Vec<u8>)
        ensures
            out@ == pbm_encoding(
                self.raster().atoms,
                self.raster().width as int,
                self.raster().height as int,
            ),
    {
        let ghost gw = self.raster().width as int;
        let ghost gh = self.raster().height as int;
        let mut out: Vec<u8> = Vec::new();
        out.push(80);
        out.push(49);
        out.push(10);
        push_dec(&mut out, self.width());
        out.push(32);
        push_dec(&mut out, self.height());
        out.push(10);
        proof {
            assert(out@ =~= pbm_header(gw, gh));
        }
        let a = self.atoms();
        let mut i: usize = 0;
        while i < a.len()
            invariant
                i <= a.len(),
                a@ == self.raster().atoms,
                gw == self.raster().width as int,
                gh == self.raster().height as int,
                out@ == pbm_header(gw, gh) + pbm_body(a@.take(i as int)),
            decreases a.len() - i,
        {
            let b = a[i];
            if b {
                out.push(49);
            } else {
                out.push(48);
            }
            proof {
                assert(a@.take(i as int + 1).drop_last() =~= a@.take(i as int));
                assert(a@.take(i as int + 1).last() == a@[i as int]);
                assert(out@ =~= pbm_header(gw, gh) + pbm_body(a@.take(i as int + 1)));
            }
            i = i + 1;
        }
        proof {
            assert(a@.take(a@.len() as int) =~= a@);
        }
        out
    }
}

} // verus!
