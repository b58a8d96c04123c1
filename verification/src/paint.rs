//! The RGBA canvas and its PPM (P6) encoding.

use vstd::prelude::*;
use crate::css::Color;
use crate::text::{decimal, usize_to_decimal};

verus! {

/// An RGBA pixel buffer, row-major, top-left origin.
pub struct Canvas {
    pub width: usize,
    pub height: usize,
    pub pixels: Vec<[u8; 4]>,
}

pub open spec fn color_pixel(c: Color) -> Seq<u8> {
    seq![c.r, c.g, c.b, c.a]
}

/// The red, green and blue bytes of each pixel in turn.
pub open spec fn rgb_bytes(px: Seq<[u8; 4]>) -> Seq<u8>
    decreases px.len(),
{
    if px.len() == 0 {
        seq![]
    } else {
        rgb_bytes(px.drop_last()) + seq![px.last()[0], px.last()[1], px.last()[2]]
    }
}

/// ASCII text as bytes.
pub open spec fn ascii_bytes(t: Seq<char>) -> Seq<u8> {
    Seq::new(t.len(), |i: int| t[i] as u8)
}

/// A binary PPM: `P6`, the width and height, `255`, each on its own line,
/// then the RGB bytes.
pub open spec fn spec_ppm(width: usize, height: usize, px: Seq<[u8; 4]>) -> Seq<u8> {
    ascii_bytes(seq!['P', '6', '\n'] + decimal(width as nat) + seq![' '] + decimal(height as nat)
        + seq!['\n', '2', '5', '5', '\n']) + rgb_bytes(px)
}

/// Painting `src` over the pixel `dst` where no mixing is needed: an opaque
/// color replaces the pixel (and the result is opaque), a fully transparent
/// one leaves it as it was. `None` for partial alpha, which mixes the two.
pub fn blend_exact(dst: [u8; 4], src: Color) -> (r: Option<[u8; 4]>)
    ensures
        src.a == 255 ==> r == Some([src.r, src.g, src.b, 255u8]),
        src.a == 0 ==> r == Some(dst),
        0 < src.a < 255 ==> r is None,
{
    if src.a == 255 {
        Some([src.r, src.g, src.b, 255])
    } else if src.a == 0 {
        Some(dst)
    } else {
        None
    }
}

#[verifier::external_type_specification]
#[verifier::external_body]
pub struct ExIoError(std::io::Error);

/// Writes all of `bytes` to `out`.
/// Wraps `std::io::Write::write_all`; what it returns depends on the writer,
/// so nothing is claimed of the result.
#[verifier::external_body]
fn write_all_bytes<W: std::io::Write>(out: &mut W, bytes: &[u8]) -> std::io::Result<()> {
    out.write_all(bytes)
}

impl Canvas {
    /// A canvas filled with `background`.
    pub fn new(width: usize, height: usize, background: Color) -> (c: Canvas)
        requires
            width * height <= usize::MAX,
        ensures
            c.width == width,
            c.height == height,
            c.pixels@.len() == width * height,
            forall|i: int| 0 <= i < c.pixels@.len() ==> (#[trigger] c.pixels@[i])@ == color_pixel(background),
    {
        let n = width * height;
        let px = [background.r, background.g, background.b, background.a];
        let mut pixels: Vec<[u8; 4]> = Vec::new();
        let mut i: usize = 0;
        while i < n
            invariant
                i <= n,
                pixels@.len() == i,
                px@ == color_pixel(background),
                forall|j: int| 0 <= j < i ==> (#[trigger] pixels@[j])@ == color_pixel(background),
            decreases n - i,
        {
            pixels.push(px);
            i = i + 1;
        }
        Canvas { width, height, pixels }
    }

    /// The canvas as a binary PPM image.
    pub fn ppm_bytes(&self) -> (b: Vec<u8>)
        ensures
            b@ == spec_ppm(self.width, self.height, self.pixels@),
    {
        let mut head: Vec<char> = Vec::new();
        head.push('P');
        head.push('6');
        head.push('\n');
        let w = crate::text::str_to_chars(usize_to_decimal(self.width).as_str());
        append_chars(&mut head, &w);
        head.push(' ');
        let h = crate::text::str_to_chars(usize_to_decimal(self.height).as_str());
        append_chars(&mut head, &h);
        head.push('\n');
        head.push('2');
        head.push('5');
        head.push('5');
        head.push('\n');
        assert(head@ =~= seq!['P', '6', '\n'] + decimal(self.width as nat) + seq![' '] + decimal(self.height as nat)
            + seq!['\n', '2', '5', '5', '\n']);
        let mut out: Vec<u8> = Vec::new();
        let mut i: usize = 0;
        while i < head.len()
            invariant
                i <= head@.len(),
                out@ == ascii_bytes(head@.take(i as int)),
            decreases head@.len() - i,
        {
            out.push(head[i] as u8);
            i = i + 1;
            assert(out@ =~= ascii_bytes(head@.take(i as int)));
        }
        assert(head@.take(i as int) =~= head@);
        let ghost base = out@;
        let mut k: usize = 0;
        while k < self.pixels.len()
            invariant
                k <= self.pixels@.len(),
                out@ == base + rgb_bytes(self.pixels@.take(k as int)),
            decreases self.pixels@.len() - k,
        {
            let p = self.pixels[k];
            out.push(p[0]);
            out.push(p[1]);
            out.push(p[2]);
            proof {
                assert(self.pixels@.take(k + 1).drop_last() =~= self.pixels@.take(k as int));
                assert(self.pixels@.take(k + 1).last() == p);
            }
            k = k + 1;
            assert(out@ =~= base + rgb_bytes(self.pixels@.take(k as int)));
        }
        assert(self.pixels@.take(k as int) =~= self.pixels@);
        out
    }

    /// Encodes the canvas as a binary PPM (P6) into `out`: the bytes handed
    /// to the writer are `ppm_bytes`.
    pub fn write_ppm<W: std::io::Write>(&self, mut out: W) -> std::io::Result<()> {
        let bytes = self.ppm_bytes();
        write_all_bytes(&mut out, bytes.as_slice())
    }
}

fn append_chars(v: &mut Vec<char>, w: &Vec<char>)
    ensures
        final(v)@ == old(v)@ + w@,
{
    let ghost start = v@;
    let mut i: usize = 0;
    while i < w.len()
        invariant
            i <= w@.len(),
            v@ == start + w@.take(i as int),
        decreases w@.len() - i,
    {
        v.push(w[i]);
        i = i + 1;
        assert(v@ =~= start + w@.take(i as int));
    }
    assert(w@.take(i as int) =~= w@);
}

} // verus!
