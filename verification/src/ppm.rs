//! Serialization of a canvas to the plain portable-pixmap text format.
//!
//! The format is text: the line `P3`, a line with the width and the height,
//! the line `255` for the channel maximum, then one line per pixel in
//! row-major order holding the three channels separated by single spaces,
//! with a newline after every line including the last.

use crate::canvas::Canvas;
use vstd::prelude::*;
use vstd::string::StringExecFns;

verus! {

/// A pixel whose channels are already quantized to one byte each, the form
/// the pixmap format writes out.
#[derive(Clone, Copy, Debug, PartialEq, Eq, Structural)]
pub struct Rgb {
    pub r: u8,
    pub g: u8,
    pub b: u8,
}

/// A channel scaled to whole units, clamped into a byte.
pub open spec fn clamp_channel(scaled: int) -> int {
    if scaled < 0 {
        0
    } else if scaled > 255 {
        255
    } else {
        scaled
    }
}

/// Clamps a scaled color channel into the byte range of the pixmap format.
///
/// A color component `c` leaves the renderer as the whole number
/// `floor(c * 256)`; this clamps it to `[0, 255]`.
pub fn quantize(scaled: i64) -> (channel: u8)
    ensures
        channel == clamp_channel(scaled as int),
{
    if scaled < 0 {
        0
    } else if scaled > 255 {
        255
    } else {
        scaled as u8
    }
}

/// The character of the decimal digit `d`.
pub open spec fn digit_char(d: int) -> char {
    if d == 0 {
        '0'
    } else if d == 1 {
        '1'
    } else if d == 2 {
        '2'
    } else if d == 3 {
        '3'
    } else if d == 4 {
        '4'
    } else if d == 5 {
        '5'
    } else if d == 6 {
        '6'
    } else if d == 7 {
        '7'
    } else if d == 8 {
        '8'
    } else {
        '9'
    }
}

/// The decimal digits of `n`, most significant first, without a sign and
/// without leading zeros (`0` itself is the single digit `0`).
pub open spec fn dec_rep(n: nat) -> Seq<char>
    decreases n,
{
    if n < 10 {
        seq![digit_char(n as int)]
    } else {
        dec_rep(n / 10).push(digit_char((n % 10) as int))
    }
}

/// The output line of one pixel: the three channels in decimal, separated
/// by single spaces, ended by a newline.
pub open spec fn pixel_chars(p: Rgb) -> Seq<char> {
    dec_rep(p.r as nat) + seq![' '] + dec_rep(p.g as nat) + seq![' '] + dec_rep(p.b as nat)
        + seq!['\n']
}

/// The pixel lines of `ps`, in order.
pub open spec fn body_chars(ps: Seq<Rgb>) -> Seq<char>
    decreases ps.len(),
{
    if ps.len() == 0 {
        Seq::empty()
    } else {
        body_chars(ps.drop_last()) + pixel_chars(ps.last())
    }
}

/// The three header lines: magic number, dimensions, channel maximum.
pub open spec fn header_chars(width: usize, height: usize) -> Seq<char> {
    seq!['P', '3', '\n'] + dec_rep(width as nat) + seq![' '] + dec_rep(height as nat) + seq!['\n']
        + seq!['2', '5', '5', '\n']
}

/// The entire serialized pixmap of a `width` x `height` grid with the
/// pixels `ps` in row-major order.
pub open spec fn ppm_chars(width: usize, height: usize, ps: Seq<Rgb>) -> Seq<char> {
    header_chars(width, height) + body_chars(ps)
}

/// Appends the digit character of `d` to `s`.
fn push_digit(s: &mut String, d: u8)
    requires
        d < 10,
    ensures
        final(s)@ == old(s)@.push(digit_char(d as int)),
{
    proof {
        reveal_strlit("0");
        reveal_strlit("1");
        reveal_strlit("2");
        reveal_strlit("3");
        reveal_strlit("4");
        reveal_strlit("5");
        reveal_strlit("6");
        reveal_strlit("7");
        reveal_strlit("8");
        reveal_strlit("9");
    }
    match d {
        0 => s.append("0"),
        1 => s.append("1"),
        2 => s.append("2"),
        3 => s.append("3"),
        4 => s.append("4"),
        5 => s.append("5"),
        6 => s.append("6"),
        7 => s.append("7"),
        8 => s.append("8"),
        _ => s.append("9"),
    }
    proof {
        assert(s@ =~= old(s)@.push(digit_char(d as int)));
    }
}

/// Appends the decimal representation of `n` to `s`.
fn push_decimal(s: &mut String, n: usize)
    ensures
        final(s)@ == old(s)@ + dec_rep(n as nat),
    decreases n,
{
    if n >= 10 {
        push_decimal(s, n / 10);
        push_digit(s, (n % 10) as u8);
        proof {
            assert(s@ =~= old(s)@ + dec_rep(n as nat));
        }
    } else {
        push_digit(s, n as u8);
        proof {
            assert(s@ =~= old(s)@ + dec_rep(n as nat));
        }
    }
}

/// Appends the output line of the pixel `p` to `s`.
fn push_pixel(s: &mut String, p: Rgb)
    ensures
        final(s)@ == old(s)@ + pixel_chars(p),
{
    proof {
        reveal_strlit(" ");
        reveal_strlit("\n");
    }
    push_decimal(s, p.r as usize);
    s.append(" ");
    push_decimal(s, p.g as usize);
    s.append(" ");
    push_decimal(s, p.b as usize);
    s.append("\n");
    proof {
        assert(s@ =~= old(s)@ + pixel_chars(p));
    }
}

/// One more pixel extends the body by that pixel's line.
proof fn lemma_body_chars_snoc(ps: Seq<Rgb>, i: int)
    requires
        0 <= i < ps.len(),
    ensures
        body_chars(ps.take(i + 1)) == body_chars(ps.take(i)) + pixel_chars(ps[i]),
{
    let t = ps.take(i + 1);
    assert(t.drop_last() =~= ps.take(i));
    assert(t.last() == ps[i]);
}

impl Canvas<Rgb> {
    /// Serializes the grid as a plain portable pixmap: the exact text is
    /// pinned down, character for character, by [`ppm_chars`].
    pub fn to_ppm(&self) -> (s: String)
        ensures
            s@ == ppm_chars(self.spec_width(), self.spec_height(), self.pixel_seq()),
    {
        let w = self.width();
        let h = self.height();
        proof {
            reveal_strlit("P3\n");
            reveal_strlit(" ");
            reveal_strlit("\n");
            reveal_strlit("255\n");
        }
        let mut s = String::new();
        s.append("P3\n");
        push_decimal(&mut s, w);
        s.append(" ");
        push_decimal(&mut s, h);
        s.append("\n");
        s.append("255\n");
        proof {
            assert(s@ =~= header_chars(w, h));
            assert(self.pixel_seq().take(0) =~= Seq::<Rgb>::empty());
        }
        let total = self.pixel_count();
        let mut i: usize = 0;
        while i < total
            invariant
                total == self.pixel_seq().len(),
                i <= total,
                s@ == header_chars(self.spec_width(), self.spec_height()) + body_chars(
                    self.pixel_seq().take(i as int),
                ),
            decreases total - i,
        {
            let p = self.pixel_at(i);
            push_pixel(&mut s, p);
            proof {
                lemma_body_chars_snoc(self.pixel_seq(), i as int);
                assert(s@ =~= header_chars(self.spec_width(), self.spec_height()) + body_chars(
                    self.pixel_seq().take(i + 1),
                ));
            }
            i = i + 1;
        }
        proof {
            assert(self.pixel_seq().take(total as int) =~= self.pixel_seq());
        }
        s
    }
}

} // verus!
