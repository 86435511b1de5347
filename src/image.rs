//! An image as a row-major pixel sequence with its declared dimensions, its
//! transforms, and its plain-text and binary encodings.
use vstd::prelude::*;
use rayon::iter::{IntoParallelRefMutIterator, ParallelIterator};
use crate::binary::{payload_readable, payload_triples, triples_payload};
use crate::decimal::decimal;
use crate::pixel::Pixel;
use crate::scan::{line_end, word_values};

verus! {

/// Why a load failed.
#[derive(Clone, Copy, Debug, PartialEq, Eq, Structural)]
pub enum PpmError {
    /// The source could not be read or the destination written.
    Io,
    /// The three header lines are missing, or the size line does not hold a
    /// positive width and height.
    Header,
    /// The pixel stream cannot be read as channel values.
    Decode,
}

/// Pixels in row-major order, with the width and height (`length`) that the
/// image declares. Decoding trusts the declared dimensions and does not hold
/// them against the number of pixels read.
pub struct Image {
    pub pixels: Vec<Pixel>,
    pub width: u32,
    pub length: u32,
}

/// What an image is: its pixels, width and height.
pub type ImageModel = (Seq<Pixel>, u32, u32);

impl View for Image {
    type V = ImageModel;

    open spec fn view(&self) -> ImageModel {
        (self.pixels@, self.width, self.length)
    }
}

/// Positive dimensions whose product is the number of pixels.
pub open spec fn well_formed(m: ImageModel) -> bool {
    m.1 > 0 && m.2 > 0 && m.0.len() == m.1 * m.2
}

/// The header: the format tag, the width and height, and the largest channel value.
pub open spec fn header_text(width: u32, length: u32) -> Seq<u8> {
    seq![80u8, 51u8, 10u8] + decimal(width as nat) + seq![32u8] + decimal(length as nat) + seq![
        10u8,
        50u8,
        53u8,
        53u8,
        10u8,
    ]
}

/// The plain-text forms of the pixels, one after another.
pub open spec fn pixels_text(ps: Seq<Pixel>) -> Seq<u8>
    decreases ps.len(),
{
    if ps.len() == 0 {
        seq![]
    } else {
        pixels_text(ps.drop_last()) + ps.last().text()
    }
}

pub open spec fn plain_encoding(m: ImageModel) -> Seq<u8> {
    header_text(m.1, m.2) + pixels_text(m.0)
}

pub open spec fn pixel_triples(ps: Seq<Pixel>) -> Seq<(u8, u8, u8)> {
    ps.map_values(|p: Pixel| (p.r, p.g, p.b))
}

pub open spec fn binary_encoding(m: ImageModel) -> Seq<u8> {
    header_text(m.1, m.2) + triples_payload(pixel_triples(m.0))
}

/// Width and height from the words of the size line: the first word and the
/// last, each a positive decimal `u32`.
pub open spec fn size_from(v: Seq<Option<u32>>) -> Option<(u32, u32)> {
    if v.len() == 0 {
        None
    } else {
        match (v[0], v.last()) {
            (Some(w), Some(h)) => if w > 0 && h > 0 {
                Some((w, h))
            } else {
                None
            },
            _ => None,
        }
    }
}

/// The width, the height and where the pixel data starts, when `d` begins
/// with three newline-terminated lines whose second gives the size. The first
/// and third lines are not read.
pub open spec fn header_fields(d: Seq<u8>) -> Option<(u32, u32, int)> {
    let e1 = line_end(d, 0);
    let e2 = line_end(d, e1 + 1);
    let e3 = line_end(d, e2 + 1);
    if e3 < d.len() {
        match size_from(word_values(d, e1 + 1, e2)) {
            Some((w, h)) => Some((w, h, e3 + 1)),
            None => None,
        }
    } else {
        None
    }
}

pub open spec fn all_channels(v: Seq<Option<u32>>) -> bool {
    forall|i: int| 0 <= i < v.len() ==> (#[trigger] v[i] matches Some(c) && c <= 255)
}

pub open spec fn channel(v: Seq<Option<u32>>, i: int) -> u8 {
    v[i]->Some_0 as u8
}

/// Consecutive values taken three at a time as red, green and blue; one or
/// two values left over at the end are dropped.
pub open spec fn group_pixels(v: Seq<Option<u32>>) -> Seq<Pixel> {
    Seq::new(
        v.len() / 3,
        |k: int| Pixel { r: channel(v, 3 * k), g: channel(v, 3 * k + 1), b: channel(v, 3 * k + 2) },
    )
}

/// What loading a plain-text image from `d` gives.
pub open spec fn plain_decoding(d: Seq<u8>) -> Result<ImageModel, PpmError> {
    match header_fields(d) {
        None => Err(PpmError::Header),
        Some((w, h, s)) => {
            let v = word_values(d, s, d.len() as int);
            if all_channels(v) {
                Ok((group_pixels(v), w, h))
            } else {
                Err(PpmError::Decode)
            }
        },
    }
}

/// What loading a binary image from `d` gives.
pub open spec fn binary_decoding(d: Seq<u8>) -> Result<ImageModel, PpmError> {
    match header_fields(d) {
        None => Err(PpmError::Header),
        Some((w, h, s)) => {
            let p = d.subrange(s, d.len() as int);
            if payload_readable(p) {
                Ok((payload_triples(p).map_values(|t: (u8, u8, u8)| Pixel { r: t.0, g: t.1, b: t.2 }), w, h))
            } else {
                Err(PpmError::Decode)
            }
        },
    }
}

/// Relies on rayon's `par_iter_mut().for_each`: the closure runs once on
/// each element of the vector.
#[verifier::external_body]
fn par_invert(ps: &mut Vec<Pixel>)
    ensures
        final(ps)@ == old(ps)@.map_values(|p: Pixel| p.inverted()),
{
    ps.par_iter_mut().for_each(|p| p.invert());
}

/// Relies on rayon's `par_iter_mut().for_each`: the closure runs once on
/// each element of the vector.
#[verifier::external_body]
fn par_grayscale(ps: &mut Vec<Pixel>)
    ensures
        final(ps)@ == old(ps)@.map_values(|p: Pixel| p.grayscaled()),
{
    ps.par_iter_mut().for_each(|p| p.to_grayscale());
}

impl Image {
    pub fn new(vector: Vec<Pixel>, width: u32, length: u32) -> (img: Image)
        ensures
            img@ == (vector@, width, length),
    {
        Image { pixels: vector, width, length }
    }

    pub fn get_pixels(&self) -> (ps: &Vec<Pixel>)
        ensures
            ps@ == self.pixels@,
    {
        &self.pixels
    }

    pub fn invert(&mut self)
        ensures
            final(self)@ == (old(self).pixels@.map_values(|p: Pixel| p.inverted()), old(self).width, old(self).length),
    {
        par_invert(&mut self.pixels);
    }

    pub fn to_grayscale(&mut self)
        ensures
            final(self)@ == (old(self).pixels@.map_values(|p: Pixel| p.grayscaled()), old(self).width, old(self).length),
    {
        par_grayscale(&mut self.pixels);
    }

    /// Turns the image by half a turn: the row-major sequence is reversed.
    pub fn rotate(&mut self)
        ensures
            final(self)@ == (old(self).pixels@.reverse(), old(self).width, old(self).length),
    {
        let n = self.pixels.len();
        let ghost orig = self.pixels@;
        let mut i: usize = 0;
        while i < n / 2
            invariant
                n == orig.len(),
                self.pixels@.len() == n,
                i <= n / 2,
                self.width == old(self).width,
                self.length == old(self).length,
                orig == old(self).pixels@,
                forall|k: int| 0 <= k < i ==> #[trigger] self.pixels@[k] == orig[n - 1 - k],
                forall|k: int| 0 <= k < i ==> #[trigger] self.pixels@[n - 1 - k] == orig[k],
                forall|k: int| i <= k < n - i ==> #[trigger] self.pixels@[k] == orig[k],
            decreases n / 2 - i,
        {
            let j = n - 1 - i;
            let a = self.pixels[i];
            let b = self.pixels[j];
            self.pixels.set(i, b);
            self.pixels.set(j, a);
            i = i + 1;
        }
        assert forall|k: int| 0 <= k < n implies #[trigger] self.pixels@[k] == orig.reverse()[k] by {
            if k >= n - i {
                let m = n - 1 - k;
                assert(self.pixels@[n - 1 - m] == orig[m]);
            }
        }
        assert(self.pixels@ =~= orig.reverse());
    }
}

/// Rotating twice restores the pixel order, whatever the number of pixels.
pub proof fn lemma_rotate_involution(ps: Seq<Pixel>)
    ensures
        ps.reverse().reverse() == ps,
{
    assert(ps.reverse().reverse() =~= ps);
}

/// Inverting an image twice restores every pixel.
pub proof fn lemma_invert_image_involution(ps: Seq<Pixel>)
    ensures
        ps.map_values(|p: Pixel| p.inverted()).map_values(|p: Pixel| p.inverted()) == ps,
{
    assert(ps.map_values(|p: Pixel| p.inverted()).map_values(|p: Pixel| p.inverted()) =~= ps);
}

/// One or two values after the last complete triple add no pixel.
pub proof fn lemma_partial_triple_dropped(v: Seq<Option<u32>>, extra: Seq<Option<u32>>)
    requires
        v.len() % 3 == 0,
        1 <= extra.len() <= 2,
    ensures
        group_pixels(v + extra) == group_pixels(v),
{
    assert((v + extra).len() / 3 == v.len() / 3);
    assert forall|k: int| 0 <= k < v.len() / 3 implies #[trigger] group_pixels(v + extra)[k] == group_pixels(v)[k] by {
        assert(3 * k + 2 < v.len());
    }
    assert(group_pixels(v + extra) =~= group_pixels(v));
}

} // verus!
