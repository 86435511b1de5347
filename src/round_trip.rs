//! What is saved loads back unchanged.
use vstd::prelude::*;
use crate::binary::{
    byte_bound, flat_triples, le_bytes, lemma_le_round_trip, payload_count, payload_readable,
    payload_triples, triples_payload,
};
use crate::decimal::{decimal, is_digit, lemma_decimal_numeral};
use crate::image::{
    all_channels, binary_decoding, binary_encoding, group_pixels, header_fields, header_text,
    pixel_triples, pixels_text, plain_decoding, plain_encoding, size_from, well_formed, ImageModel,
    PpmError,
};
use crate::pixel::Pixel;
use crate::scan::{
    is_space, lemma_line_end_at, lemma_split_join, lemma_split_run, split_words, word_values,
    words,
};

verus! {

/// A header written for positive dimensions reads back as those
/// dimensions, whatever follows it.
pub proof fn lemma_header_round_trip(w: u32, h: u32, rest: Seq<u8>)
    requires
        w > 0,
        h > 0,
    ensures
        header_fields(header_text(w, h) + rest) == Some((w, h, header_text(w, h).len() as int)),
{
    let dw = decimal(w as nat);
    let dh = decimal(h as nat);
    lemma_decimal_numeral(w as nat);
    lemma_decimal_numeral(h as nat);
    let a = dw.len() as int;
    let b = dh.len() as int;
    let hd = header_text(w, h);
    let d = hd + rest;
    assert(hd.len() == 9 + a + b);
    assert forall|m: int| 0 <= m < a implies #[trigger] d[3 + m] == dw[m] by {
        assert(hd[3 + m] == dw[m]);
    }
    assert forall|m: int| 0 <= m < b implies #[trigger] d[4 + a + m] == dh[m] by {
        assert(hd[4 + a + m] == dh[m]);
    }
    assert(d[0] == 80u8 && d[1] == 51u8 && d[2] == 10u8);
    assert(d[3 + a] == 32u8);
    assert(d[4 + a + b] == 10u8);
    assert(d[5 + a + b] == 50u8 && d[6 + a + b] == 53u8 && d[7 + a + b] == 53u8);
    assert(d[8 + a + b] == 10u8);
    lemma_line_end_at(d, 0, 2);
    assert forall|k: int| 3 <= k < 4 + a + b implies #[trigger] d[k] != 10 by {
        if k < 3 + a {
            assert(d[3 + (k - 3)] == dw[k - 3]);
            assert(is_digit(dw[k - 3]));
        } else if k > 3 + a {
            assert(d[4 + a + (k - 4 - a)] == dh[k - 4 - a]);
            assert(is_digit(dh[k - 4 - a]));
        }
    }
    lemma_line_end_at(d, 3, 4 + a + b);
    lemma_line_end_at(d, 5 + a + b, 8 + a + b);
    let end = 4 + a + b;
    assert forall|m: int| 3 <= m < 3 + a implies !is_space(#[trigger] d[m]) by {
        assert(d[3 + (m - 3)] == dw[m - 3]);
        assert(is_digit(dw[m - 3]));
    }
    assert forall|m: int| 4 + a <= m < 4 + a + b implies !is_space(#[trigger] d[m]) by {
        assert(d[4 + a + (m - 4 - a)] == dh[m - 4 - a]);
        assert(is_digit(dh[m - 4 - a]));
    }
    lemma_split_run(d, 3, a, end, seq![]);
    assert(seq![] + d.subrange(3, 3 + a) =~= dw);
    lemma_split_run(d, 4 + a, b, end, seq![]);
    assert(seq![] + d.subrange(4 + a, 4 + a + b) =~= dh);
    assert(split_words(d, end, end, dh) == seq![dh]);
    assert(words(d, 3, end) =~= seq![dw, dh]);
    assert(word_values(d, 3, end) =~= seq![Some(w), Some(h)]);
    assert(size_from(word_values(d, 3, end)) == Some((w, h)));
}

/// Saving in the binary layout and loading the result gives back the same
/// pixels and dimensions.
pub proof fn lemma_binary_round_trip(m: ImageModel)
    requires
        m.1 > 0,
        m.2 > 0,
        m.0.len() <= usize::MAX,
    ensures
        binary_decoding(binary_encoding(m)) == Ok::<ImageModel, PpmError>(m),
{
    let ps = m.0;
    let w = m.1;
    let h = m.2;
    let n = ps.len();
    let t = pixel_triples(ps);
    let p = triples_payload(t);
    lemma_header_round_trip(w, h, p);
    let d = binary_encoding(m);
    let s = header_text(w, h).len() as int;
    assert(d.subrange(s, d.len() as int) =~= p);
    reveal_with_fuel(byte_bound, 9);
    assert(byte_bound(8) == 0x1_0000_0000_0000_0000);
    lemma_le_round_trip(n, 8);
    assert(p.subrange(0, 8) =~= le_bytes(n, 8));
    assert(payload_count(p) == n);
    assert(payload_readable(p));
    let back = payload_triples(p).map_values(|x: (u8, u8, u8)| Pixel { r: x.0, g: x.1, b: x.2 });
    assert forall|k: int| 0 <= k < n implies #[trigger] back[k] == ps[k] by {
        let f = flat_triples(t);
        assert(p[8 + 3 * k] == f[3 * k]);
        assert(p[9 + 3 * k] == f[3 * k + 1]);
        assert(p[10 + 3 * k] == f[3 * k + 2]);
        assert((3 * k) / 3 == k && (3 * k) % 3 == 0);
        assert((3 * k + 1) / 3 == k && (3 * k + 1) % 3 == 1);
        assert((3 * k + 2) / 3 == k && (3 * k + 2) % 3 == 2);
    }
    assert(back =~= ps);
}

/// The channel values of the pixels, in order, as the scanner reports them.
pub open spec fn channel_values(ps: Seq<Pixel>) -> Seq<Option<u32>> {
    Seq::new(
        3 * ps.len(),
        |j: int|
            if j % 3 == 0 {
                Some(ps[j / 3].r as u32)
            } else if j % 3 == 1 {
                Some(ps[j / 3].g as u32)
            } else {
                Some(ps[j / 3].b as u32)
            },
    )
}

/// The text of one pixel reads as its three channel values.
proof fn lemma_pixel_words(d: Seq<u8>, j: int, p: Pixel)
    requires
        0 <= j,
        j + p.text().len() <= d.len(),
        d.subrange(j, j + p.text().len()) == p.text(),
    ensures
        word_values(d, j, j + p.text().len()) == seq![
            Some(p.r as u32),
            Some(p.g as u32),
            Some(p.b as u32),
        ],
{
    let dr = decimal(p.r as nat);
    let dg = decimal(p.g as nat);
    let db = decimal(p.b as nat);
    lemma_decimal_numeral(p.r as nat);
    lemma_decimal_numeral(p.g as nat);
    lemma_decimal_numeral(p.b as nat);
    let a = dr.len() as int;
    let b = dg.len() as int;
    let c = db.len() as int;
    let t = p.text();
    let end = j + t.len();
    assert(t.len() == a + b + c + 3);
    assert forall|x: int| 0 <= x < t.len() implies #[trigger] d[j + x] == t[x] by {
        assert(d.subrange(j, end)[x] == d[j + x]);
    }
    assert forall|m: int| 0 <= m < a implies #[trigger] t[m] == dr[m] && is_digit(dr[m]) by {}
    assert forall|m: int| 0 <= m < b implies #[trigger] t[a + 1 + m] == dg[m] && is_digit(dg[m]) by {}
    assert forall|m: int| 0 <= m < c implies #[trigger] t[a + b + 2 + m] == db[m] && is_digit(db[m]) by {}
    assert(t[a] == 32u8 && t[a + b + 1] == 32u8 && t[a + b + c + 2] == 32u8);
    assert(d[j + a] == 32u8 && d[j + (a + b + 1)] == 32u8 && d[j + (a + b + c + 2)] == 32u8);
    assert forall|m: int| j <= m < j + a implies !is_space(#[trigger] d[m]) by {
        assert(d[j + (m - j)] == t[m - j]);
        assert(t[m - j] == dr[m - j]);
    }
    assert forall|m: int| j + a + 1 <= m < j + a + 1 + b implies !is_space(#[trigger] d[m]) by {
        assert(d[j + (m - j)] == t[m - j]);
        assert(t[a + 1 + (m - j - a - 1)] == dg[m - j - a - 1]);
    }
    assert forall|m: int| j + a + b + 2 <= m < j + a + b + 2 + c implies !is_space(#[trigger] d[m]) by {
        assert(d[j + (m - j)] == t[m - j]);
        assert(t[a + b + 2 + (m - j - a - b - 2)] == db[m - j - a - b - 2]);
    }
    lemma_split_run(d, j, a, end, seq![]);
    assert(seq![] + d.subrange(j, j + a) =~= dr) by {
        assert forall|m: int| 0 <= m < a implies d.subrange(j, j + a)[m] == dr[m] by {
            assert(d[j + m] == t[m]);
        }
    }
    lemma_split_run(d, j + a + 1, b, end, seq![]);
    assert(seq![] + d.subrange(j + a + 1, j + a + 1 + b) =~= dg) by {
        assert forall|m: int| 0 <= m < b implies d.subrange(j + a + 1, j + a + 1 + b)[m] == dg[m] by {
            assert(d[j + (a + 1 + m)] == t[a + 1 + m]);
        }
    }
    lemma_split_run(d, j + a + b + 2, c, end, seq![]);
    assert(seq![] + d.subrange(j + a + b + 2, j + a + b + 2 + c) =~= db) by {
        assert forall|m: int| 0 <= m < c implies d.subrange(j + a + b + 2, j + a + b + 2 + c)[m] == db[m] by {
            assert(d[j + (a + b + 2 + m)] == t[a + b + 2 + m]);
        }
    }
    assert(split_words(d, end, end, seq![]) == Seq::<Seq<u8>>::empty());
    assert(words(d, j, end) =~= seq![dr, dg, db]);
    assert(word_values(d, j, end) =~= seq![Some(p.r as u32), Some(p.g as u32), Some(p.b as u32)]);
}

/// The plain-text pixel stream reads as the channel values of the pixels.
proof fn lemma_text_words(d: Seq<u8>, i: int, ps: Seq<Pixel>)
    requires
        0 <= i,
        i + pixels_text(ps).len() <= d.len(),
        d.subrange(i, i + pixels_text(ps).len()) == pixels_text(ps),
    ensures
        word_values(d, i, i + pixels_text(ps).len()) == channel_values(ps),
    decreases ps.len(),
{
    let t = pixels_text(ps);
    if ps.len() == 0 {
        assert(split_words(d, i, i, seq![]) == Seq::<Seq<u8>>::empty());
        assert(word_values(d, i, i) =~= channel_values(ps));
    } else {
        let prev = ps.drop_last();
        let last = ps.last();
        let tp = pixels_text(prev);
        let j = i + tp.len();
        let end = i + t.len();
        assert(t == tp + last.text());
        assert(d.subrange(i, j) =~= tp) by {
            assert forall|m: int| 0 <= m < tp.len() implies d.subrange(i, j)[m] == tp[m] by {
                assert(d.subrange(i, end)[m] == t[m]);
            }
        }
        assert(d.subrange(j, end) =~= last.text()) by {
            assert forall|m: int| 0 <= m < last.text().len() implies d.subrange(j, end)[m] == last.text()[m] by {
                assert(d.subrange(i, end)[tp.len() + m] == t[tp.len() + m]);
            }
        }
        lemma_text_words(d, i, prev);
        lemma_pixel_words(d, j, last);
        let tail = seq![Some(last.r as u32), Some(last.g as u32), Some(last.b as u32)];
        if prev.len() == 0 {
            assert(j == i);
            assert(channel_values(prev) =~= Seq::<Option<u32>>::empty());
        } else {
            let pl = prev.last();
            assert(tp == pixels_text(prev.drop_last()) + pl.text());
            assert(pl.text().last() == 32u8);
            assert(tp.last() == 32u8);
            assert(d[j - 1] == tp[tp.len() - 1]) by {
                assert(d.subrange(i, j)[tp.len() - 1] == d[j - 1]);
            }
            lemma_split_join(d, i, j, end, seq![]);
            assert(words(d, i, end) == words(d, i, j) + words(d, j, end));
            assert(word_values(d, i, end) =~= word_values(d, i, j) + word_values(d, j, end));
        }
        let n = prev.len() as int;
        assert forall|x: int| 0 <= x < 3 * ps.len() implies #[trigger] channel_values(ps)[x] == (channel_values(prev) + tail)[x] by {
            if x < 3 * n {
                assert(x / 3 < n);
                assert(ps[x / 3] == prev[x / 3]);
            } else {
                assert(x / 3 == n);
            }
        }
        assert(channel_values(ps) =~= channel_values(prev) + tail);
        assert(word_values(d, i, end) =~= channel_values(ps));
    }
}

/// Saving in the plain-text layout and loading the result gives back the
/// same pixels and dimensions.
pub proof fn lemma_plain_round_trip(m: ImageModel)
    requires
        well_formed(m),
    ensures
        plain_decoding(plain_encoding(m)) == Ok::<ImageModel, PpmError>(m),
{
    let ps = m.0;
    let w = m.1;
    let h = m.2;
    let t = pixels_text(ps);
    lemma_header_round_trip(w, h, t);
    let d = plain_encoding(m);
    let s = header_text(w, h).len() as int;
    assert(d.subrange(s, s + t.len()) =~= t);
    lemma_text_words(d, s, ps);
    let v = channel_values(ps);
    assert(all_channels(v));
    assert forall|k: int| 0 <= k < ps.len() implies #[trigger] group_pixels(v)[k] == ps[k] by {
        assert((3 * k) / 3 == k && (3 * k) % 3 == 0);
        assert((3 * k + 1) / 3 == k && (3 * k + 1) % 3 == 1);
        assert((3 * k + 2) / 3 == k && (3 * k + 2) % 3 == 2);
    }
    assert(group_pixels(v) =~= ps);
}

} // verus!
