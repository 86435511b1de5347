//! Reading and writing images: the shared header, the plain-text pixel stream
//! and the binary one.
use vstd::prelude::*;
use crate::binary::{decode_triples, encode_triples, payload_triples};
use crate::decimal::push_decimal;
use crate::image::{
    all_channels, binary_decoding, binary_encoding, group_pixels, header_fields, header_text,
    pixel_triples, pixels_text, plain_decoding, plain_encoding, size_from, Image, PpmError,
};
use crate::pixel::Pixel;
use crate::scan::{find_line_end, lemma_line_end_bounds, line_end, scan_words, word_values};

verus! {

/// Appends the three header lines for the given size.
fn write_header(out: &mut Vec<u8>, width: u32, length: u32)
    ensures
        final(out)@ == old(out)@ + header_text(width, length),
{
    out.push(80u8);
    out.push(51u8);
    out.push(10u8);
    push_decimal(out, width);
    out.push(32u8);
    push_decimal(out, length);
    out.push(10u8);
    out.push(50u8);
    out.push(53u8);
    out.push(53u8);
    out.push(10u8);
    assert(out@ =~= old(out)@ + header_text(width, length));
}

impl Image {
    /// Width and height from the words of `data[start..end]`.
    fn extract_image_size(data: &Vec<u8>, start: usize, end: usize) -> (r: Result<(u32, u32), PpmError>)
        requires
            start <= end <= data@.len(),
        ensures
            match r {
                Ok(size) => size_from(word_values(data@, start as int, end as int)) == Some(size),
                Err(e) => e == PpmError::Header && size_from(
                    word_values(data@, start as int, end as int),
                ) is None,
            },
    {
        let v = scan_words(data, start, end);
        if v.len() == 0 {
            return Err(PpmError::Header);
        }
        match (v[0], v[v.len() - 1]) {
            (Some(w), Some(h)) => if w > 0 && h > 0 {
                Ok((w, h))
            } else {
                Err(PpmError::Header)
            },
            _ => Err(PpmError::Header),
        }
    }

    /// Reads the three header lines: the width, the height, and where the
    /// pixel data starts.
    fn read_image_info(data: &Vec<u8>) -> (r: Result<(u32, u32, usize), PpmError>)
        ensures
            match r {
                Ok((w, h, s)) => header_fields(data@) == Some((w, h, s as int)) && s <= data@.len(),
                Err(e) => e == PpmError::Header && header_fields(data@) is None,
            },
    {
        let n = data.len();
        let e1 = find_line_end(data, 0);
        proof {
            lemma_line_end_bounds(data@, 0);
        }
        if e1 >= n {
            assert(line_end(data@, e1 + 1) == n);
            return Err(PpmError::Header);
        }
        let e2 = find_line_end(data, e1 + 1);
        proof {
            lemma_line_end_bounds(data@, e1 + 1);
        }
        if e2 >= n {
            assert(line_end(data@, e2 + 1) == n);
            return Err(PpmError::Header);
        }
        let e3 = find_line_end(data, e2 + 1);
        proof {
            lemma_line_end_bounds(data@, e2 + 1);
        }
        if e3 >= n {
            return Err(PpmError::Header);
        }
        match Image::extract_image_size(data, e1 + 1, e2) {
            Ok((w, h)) => Ok((w, h, e3 + 1)),
            Err(e) => Err(e),
        }
    }

    /// Loads an image whose pixels follow the header as whitespace-separated
    /// decimal channel values.
    pub fn extract_image(data: &Vec<u8>) -> (r: Result<Image, PpmError>)
        ensures
            match r {
                Ok(img) => plain_decoding(data@) == Ok::<_, PpmError>(img@),
                Err(e) => plain_decoding(data@) == Err::<crate::image::ImageModel, _>(e),
            },
    {
        let (w, h, s) = match Image::read_image_info(data) {
            Ok(info) => info,
            Err(e) => return Err(e),
        };
        let v = scan_words(data, s, data.len());
        let mut i: usize = 0;
        while i < v.len()
            invariant
                i <= v@.len(),
                header_fields(data@) == Some((w, h, s as int)),
                s <= data@.len(),
                v@ == word_values(data@, s as int, data@.len() as int),
                forall|k: int| 0 <= k < i ==> (#[trigger] v@[k] matches Some(c) && c <= 255),
            decreases v@.len() - i,
        {
            match v[i] {
                Some(c) => if c > 255 {
                    assert(!all_channels(v@));
                    return Err(PpmError::Decode);
                },
                None => {
                    assert(!all_channels(v@));
                    return Err(PpmError::Decode);
                },
            }
            i = i + 1;
        }
        assert(all_channels(v@));
        let total = v.len();
        let count = total / 3;
        let mut pixels: Vec<Pixel> = Vec::new();
        let mut k: usize = 0;
        while k < count
            invariant
                header_fields(data@) == Some((w, h, s as int)),
                v@ == word_values(data@, s as int, data@.len() as int),
                total == v@.len(),
                count == v@.len() / 3,
                k <= count,
                all_channels(v@),
                pixels@ =~= group_pixels(v@).take(k as int),
            decreases count - k,
        {
            assert(3 * k + 2 < v@.len()) by (nonlinear_arith)
                requires
                    k < count,
                    count == v@.len() / 3,
            ;
            let base = 3 * k;
            let r = v[base].unwrap() as u8;
            let g = v[base + 1].unwrap() as u8;
            let b = v[base + 2].unwrap() as u8;
            pixels.push(Pixel::new(r, g, b));
            k = k + 1;
            assert(pixels@ =~= group_pixels(v@).take(k as int));
        }
        assert(pixels@ =~= group_pixels(v@));
        Ok(Image::new(pixels, w, h))
    }

    /// Loads an image whose pixels follow the header in the binary layout.
    pub fn extract_image_binary(data: &Vec<u8>) -> (r: Result<Image, PpmError>)
        ensures
            match r {
                Ok(img) => binary_decoding(data@) == Ok::<_, PpmError>(img@),
                Err(e) => binary_decoding(data@) == Err::<crate::image::ImageModel, _>(e),
            },
    {
        let (w, h, s) = match Image::read_image_info(data) {
            Ok(info) => info,
            Err(e) => return Err(e),
        };
        let mut body: Vec<u8> = Vec::new();
        let mut i: usize = s;
        while i < data.len()
            invariant
                s <= i <= data@.len(),
                header_fields(data@) == Some((w, h, s as int)),
                body@ =~= data@.subrange(s as int, i as int),
            decreases data@.len() - i,
        {
            body.push(data[i]);
            i = i + 1;
            assert(body@ =~= data@.subrange(s as int, i as int));
        }
        let triples = match decode_triples(body.as_slice()) {
            Some(t) => t,
            None => return Err(PpmError::Decode),
        };
        let ghost model = payload_triples(body@).map_values(|t: (u8, u8, u8)| Pixel { r: t.0, g: t.1, b: t.2 });
        let mut pixels: Vec<Pixel> = Vec::new();
        let mut k: usize = 0;
        while k < triples.len()
            invariant
                k <= triples@.len(),
                header_fields(data@) == Some((w, h, s as int)),
                body@ == data@.subrange(s as int, data@.len() as int),
                triples@ == payload_triples(body@),
                model == payload_triples(body@).map_values(|t: (u8, u8, u8)| Pixel { r: t.0, g: t.1, b: t.2 }),
                pixels@ =~= model.take(k as int),
            decreases triples@.len() - k,
        {
            let (r, g, b) = triples[k];
            pixels.push(Pixel::new(r, g, b));
            k = k + 1;
            assert(pixels@ =~= model.take(k as int));
        }
        assert(pixels@ =~= model);
        Ok(Image::new(pixels, w, h))
    }

    /// Appends the image in the plain-text layout to `out`.
    pub fn save(&self, out: &mut Vec<u8>)
        ensures
            final(out)@ == old(out)@ + plain_encoding(self@),
    {
        write_header(out, self.width, self.length);
        let ghost start = out@;
        let mut i: usize = 0;
        while i < self.pixels.len()
            invariant
                i <= self.pixels@.len(),
                start == old(out)@ + header_text(self.width, self.length),
                out@ == start + pixels_text(self.pixels@.take(i as int)),
            decreases self.pixels@.len() - i,
        {
            let ghost before = out@;
            self.pixels[i].write_text(out);
            proof {
                let t = self.pixels@.take(i + 1);
                assert(t.drop_last() =~= self.pixels@.take(i as int));
                assert(out@ =~= start + pixels_text(t));
            }
            i = i + 1;
        }
        assert(self.pixels@.take(i as int) =~= self.pixels@);
        assert(out@ =~= old(out)@ + plain_encoding(self@));
    }

    /// Appends the image in the binary layout to `out`.
    pub fn save_binary(&self, out: &mut Vec<u8>)
        ensures
            final(out)@ == old(out)@ + binary_encoding(self@),
    {
        write_header(out, self.width, self.length);
        let mut triples: Vec<(u8, u8, u8)> = Vec::new();
        let mut i: usize = 0;
        while i < self.pixels.len()
            invariant
                i <= self.pixels@.len(),
                triples@ =~= pixel_triples(self.pixels@).take(i as int),
            decreases self.pixels@.len() - i,
        {
            let p = self.pixels[i];
            triples.push((p.r, p.g, p.b));
            i = i + 1;
            assert(triples@ =~= pixel_triples(self.pixels@).take(i as int));
        }
        assert(triples@ =~= pixel_triples(self.pixels@));
        let mut payload = encode_triples(&triples);
        out.append(&mut payload);
        assert(out@ =~= old(out)@ + binary_encoding(self@));
    }
}

} // verus!
