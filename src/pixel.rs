//! An RGB pixel with one byte per channel.
use vstd::prelude::*;
use crate::decimal::{decimal, is_digit, lemma_decimal_numeral, push_decimal};

verus! {

/// Three 8-bit channels: red, green and blue.
#[derive(Clone, Copy, Debug, PartialEq, Eq, Structural)]
pub struct Pixel {
    pub r: u8,
    pub g: u8,
    pub b: u8,
}

/// Relies on std's `String::from_utf8`: ASCII bytes are valid UTF-8 and each
/// byte becomes the character of the same code.
#[verifier::external_body]
fn ascii_string(bytes: Vec<u8>) -> (s: String)
    requires
        forall|i: int| 0 <= i < bytes@.len() ==> bytes@[i] < 128,
    ensures
        s@ == bytes@.map_values(|c: u8| c as char),
{
    String::from_utf8(bytes).unwrap_or_default()
}

impl Pixel {
    /// Each channel replaced by its complement against 255.
    pub open spec fn inverted(self) -> Pixel {
        Pixel { r: (255 - self.r) as u8, g: (255 - self.g) as u8, b: (255 - self.b) as u8 }
    }

    /// The gray level: each channel divided by three, then summed.
    pub open spec fn gray_level(self) -> u8 {
        (self.r / 3 + self.g / 3 + self.b / 3) as u8
    }

    pub open spec fn grayscaled(self) -> Pixel {
        Pixel { r: self.gray_level(), g: self.gray_level(), b: self.gray_level() }
    }

    /// The plain-text form: the three channels in decimal, each followed by a space.
    pub open spec fn text(self) -> Seq<u8> {
        decimal(self.r as nat) + seq![32u8] + decimal(self.g as nat) + seq![32u8] + decimal(
            self.b as nat,
        ) + seq![32u8]
    }

    pub fn new(r: u8, g: u8, b: u8) -> (p: Pixel)
        ensures
            p == (Pixel { r, g, b }),
    {
        Pixel { r, g, b }
    }

    pub fn get_r(&self) -> (v: u8)
        ensures
            v == self.r,
    {
        self.r
    }

    pub fn get_g(&self) -> (v: u8)
        ensures
            v == self.g,
    {
        self.g
    }

    pub fn get_b(&self) -> (v: u8)
        ensures
            v == self.b,
    {
        self.b
    }

    pub fn invert(&mut self)
        ensures
            *final(self) == old(self).inverted(),
    {
        self.r = 255 - self.r;
        self.g = 255 - self.g;
        self.b = 255 - self.b;
    }

    pub fn to_grayscale(&mut self)
        ensures
            *final(self) == old(self).grayscaled(),
            final(self).r as int == old(self).r / 3 + old(self).g / 3 + old(self).b / 3,
    {
        let average = self.r / 3 + self.g / 3 + self.b / 3;
        self.r = average;
        self.g = average;
        self.b = average;
    }

    /// Appends the plain-text form of the pixel to `out`.
    pub fn write_text(&self, out: &mut Vec<u8>)
        ensures
            final(out)@ == old(out)@ + self.text(),
    {
        push_decimal(out, self.r as u32);
        out.push(32u8);
        push_decimal(out, self.g as u32);
        out.push(32u8);
        push_decimal(out, self.b as u32);
        out.push(32u8);
        assert(out@ =~= old(out)@ + self.text());
    }

    /// The plain-text form, as in `"255 0 12 "`.
    pub fn to_string(&self) -> (s: String)
        ensures
            s@ == self.text().map_values(|c: u8| c as char),
    {
        let mut bytes: Vec<u8> = Vec::new();
        self.write_text(&mut bytes);
        proof {
            lemma_ascii(self.text(), self);
        }
        ascii_string(bytes)
    }

    /// The channels in parentheses, as in `"(255, 0, 12)"`.
    pub open spec fn display_text(self) -> Seq<u8> {
        seq![40u8] + decimal(self.r as nat) + seq![44u8, 32u8] + decimal(self.g as nat) + seq![
            44u8,
            32u8,
        ] + decimal(self.b as nat) + seq![41u8]
    }

    pub fn display(&self) -> (s: String)
        ensures
            s@ == self.display_text().map_values(|c: u8| c as char),
    {
        let mut bytes: Vec<u8> = Vec::new();
        bytes.push(40u8);
        push_decimal(&mut bytes, self.r as u32);
        bytes.push(44u8);
        bytes.push(32u8);
        push_decimal(&mut bytes, self.g as u32);
        bytes.push(44u8);
        bytes.push(32u8);
        push_decimal(&mut bytes, self.b as u32);
        bytes.push(41u8);
        assert(bytes@ =~= self.display_text());
        proof {
            lemma_ascii(self.display_text(), self);
        }
        ascii_string(bytes)
    }
}

/// The text forms of a pixel are ASCII.
proof fn lemma_ascii(t: Seq<u8>, p: &Pixel)
    requires
        t == p.text() || t == p.display_text(),
    ensures
        forall|i: int| 0 <= i < t.len() ==> t[i] < 128,
{
    lemma_decimal_numeral(p.r as nat);
    lemma_decimal_numeral(p.g as nat);
    lemma_decimal_numeral(p.b as nat);
    let dr = decimal(p.r as nat);
    let dg = decimal(p.g as nat);
    let db = decimal(p.b as nat);
    let a = dr.len() as int;
    let c = dg.len() as int;
    assert forall|i: int| 0 <= i < t.len() implies t[i] < 128 by {
        if t == p.text() {
            if i < a {
                assert(is_digit(dr[i]));
            } else if a + 1 <= i < a + 1 + c {
                assert(is_digit(dg[i - a - 1]));
            } else if a + 2 + c <= i < t.len() - 1 {
                assert(is_digit(db[i - a - c - 2]));
            }
        } else {
            if 1 <= i < a + 1 {
                assert(is_digit(dr[i - 1]));
            } else if a + 3 <= i < a + 3 + c {
                assert(is_digit(dg[i - a - 3]));
            } else if a + c + 5 <= i < t.len() - 1 {
                assert(is_digit(db[i - a - c - 5]));
            }
        }
    }
}

/// Inverting twice gives back the original pixel.
pub proof fn lemma_invert_involution(p: Pixel)
    ensures
        p.inverted().inverted() == p,
{
}

} // verus!
