//! Colours, and their encoding as bytes.

use vstd::prelude::*;
use crate::fixed::{fx_div, fx_int, fx_mul, fx_ratio, fx_sqrt, fx_trunc_clamped, Fixed};
use crate::utils::Interval;
use crate::vec::{v3_add, v3_hadamard, v3_scale, Vec3, VecTypes, V3};

verus! {

/// The vector `v` with the tag of a colour.
pub open spec fn as_color(v: V3) -> V3 {
    V3 { typ: VecTypes::Color, x: v.x, y: v.y, z: v.z }
}

/// The default colour: all channels `0`, with the tag of the default vector.
pub open spec fn black() -> V3 {
    V3 { typ: VecTypes::Coordinates, x: 0, y: 0, z: 0 }
}

/// What a channel of value `c` is written as in a text image: `c * 255.999`,
/// rounded towards zero and clamped into a byte.
pub open spec fn text_byte(c: int) -> int {
    fx_trunc_clamped(fx_mul(c, fx_ratio(255999, 1000)), 255)
}

/// The channel value that the byte `b` of a text image stands for: `b / 255.999`.
pub open spec fn channel_of_byte(b: int) -> int {
    fx_div(fx_int(b), fx_ratio(255999, 1000))
}

/// Gamma-2 encoding of a channel of value `c`: the square root (`0` for a
/// channel that is not positive), clamped into `[0, 0.999]`, times `256`,
/// rounded towards zero.
pub open spec fn gamma_byte(c: int) -> int {
    let root = if c > 0 {
        fx_sqrt(c)
    } else {
        0
    };
    let top = fx_ratio(999, 1000);
    let clamped = if root < 0 {
        0
    } else if root > top {
        top
    } else {
        root
    };
    fx_trunc_clamped(fx_mul(clamped, fx_int(256)), 255)
}

/// Three bytes: red, green, blue.
#[derive(Clone, Copy, Debug, PartialEq, Eq)]
pub struct Rgb(pub [u8; 3]);

/// The display colour of the linear colour `c`.
pub open spec fn encode_rgb(c: V3) -> Rgb {
    Rgb([gamma_byte(c.x) as u8, gamma_byte(c.y) as u8, gamma_byte(c.z) as u8])
}

/// A colour: three channels, nominally in `[0, 1]` before encoding.
#[derive(Clone, Copy, Debug)]
pub struct Color {
    pub rgb: Vec3,
}

impl View for Color {
    type V = V3;

    open spec fn view(&self) -> V3 {
        self.rgb@
    }
}

/// The decimal digit `d` as a character.
pub open spec fn digit_char(d: nat) -> char {
    (48 + d) as u8 as char
}

/// The decimal numeral of `n`, without leading zeros.
pub open spec fn decimal(n: nat) -> Seq<char>
    decreases n,
{
    if n < 10 {
        seq![digit_char(n)]
    } else {
        decimal(n / 10).push(digit_char(n % 10))
    }
}

/// The line of a text image for three bytes: the decimal numerals, one space
/// between them, and a line feed.
pub open spec fn text_line(r: u8, g: u8, b: u8) -> Seq<char> {
    decimal(r as nat) + seq![' '] + decimal(g as nat) + seq![' '] + decimal(b as nat) + seq!['\n']
}

/// Formats three bytes as one line of a text image, by `format!` with the
/// pattern `"{} {} {}\n"`.  The contract says what `Display` for `u8` is
/// documented to print, the decimal numeral of the value; it is not proved.
#[verifier::external_body]
fn format_line(r: u8, g: u8, b: u8) -> (s: String)
    ensures
        s@ == text_line(r, g, b),
{
    format!("{} {} {}\n", r, g, b)
}

impl Color {
    /// The colour with the given channels.
    pub fn new(r: Fixed, g: Fixed, b: Fixed) -> (c: Self)
        ensures
            c.rgb == (Vec3 { typ: VecTypes::Color, x: r, y: g, z: b }),
    {
        Color { rgb: Vec3::new(VecTypes::Color, r, g, b) }
    }

    /// Every channel times `m`.
    pub fn mul(&self, m: Fixed) -> (c: Self)
        ensures
            c@ == as_color(v3_scale(self@, m@)),
    {
        Color::new(self.rgb.x.mul(&m), self.rgb.y.mul(&m), self.rgb.z.mul(&m))
    }

    /// Adds `rhs` to `self`, channel by channel.
    pub fn add_assign(&mut self, rhs: Color)
        ensures
            final(self)@ == v3_add(old(self)@, rhs@),
    {
        self.rgb.add_assign(rhs.rgb);
    }

    /// The bytes that a text image holds for this colour.
    pub fn text_bytes(&self) -> (r: Rgb)
        ensures
            r.0[0] == text_byte(self@.x),
            r.0[1] == text_byte(self@.y),
            r.0[2] == text_byte(self@.z),
    {
        let scale = Fixed::from_ratio(255999, 1000);
        Rgb(
            [
                self.rgb.x.mul(&scale).to_u8(),
                self.rgb.y.mul(&scale).to_u8(),
                self.rgb.z.mul(&scale).to_u8(),
            ],
        )
    }

    /// The line of a text image for this colour.
    pub fn to_string(&self) -> (s: String)
        ensures
            s@ == text_line(
                text_byte(self@.x) as u8,
                text_byte(self@.y) as u8,
                text_byte(self@.z) as u8,
            ),
    {
        let bytes = self.text_bytes();
        format_line(bytes.0[0], bytes.0[1], bytes.0[2])
    }
}

/// Gamma-2 encoding of one channel.
pub fn encode_channel(c: Fixed) -> (b: u8)
    ensures
        b == gamma_byte(c@),
{
    let root = if c.gt(&Fixed::zero()) {
        c.sqrt()
    } else {
        Fixed::zero()
    };
    let inten = Interval::new(Fixed::zero(), Fixed::from_ratio(999, 1000));
    inten.clamp(root).mul(&Fixed::from_int(256)).to_u8()
}

impl Rgb {
    /// The display colour of the linear colour `value`: every channel gamma-encoded.
    pub fn from_color(value: Color) -> (r: Rgb)
        ensures
            r == encode_rgb(value@),
    {
        Rgb([encode_channel(value.rgb.x), encode_channel(value.rgb.y), encode_channel(value.rgb.z)])
    }
}

/// The linear colour that the bytes `p` of a text image stand for.
pub open spec fn decode_rgb(p: Rgb) -> V3 {
    V3 {
        typ: VecTypes::Color,
        x: channel_of_byte(p.0[0] as int),
        y: channel_of_byte(p.0[1] as int),
        z: channel_of_byte(p.0[2] as int),
    }
}

impl Color {
    /// The colour whose channels are the bytes of `value` divided by `255.999`.
    pub fn from_rgb(value: Rgb) -> (c: Color)
        ensures
            c@ == decode_rgb(value),
    {
        let scale = Fixed::from_ratio(255999, 1000);
        Color::new(
            Fixed::from_int(value.0[0] as i64).div(&scale),
            Fixed::from_int(value.0[1] as i64).div(&scale),
            Fixed::from_int(value.0[2] as i64).div(&scale),
        )
    }

    /// The colour with the components of `value` as its channels.
    pub fn from_vec3(value: Vec3) -> (c: Color)
        ensures
            c.rgb == (Vec3 { typ: VecTypes::Color, x: value.x, y: value.y, z: value.z }),
    {
        Color::new(value.x, value.y, value.z)
    }

    /// The channel-wise sum, tagged as a colour.
    pub fn add(self, rhs: Color) -> (c: Color)
        ensures
            c@ == as_color(v3_add(self@, rhs@)),
    {
        Color::new(
            self.rgb.x.add(&rhs.rgb.x),
            self.rgb.y.add(&rhs.rgb.y),
            self.rgb.z.add(&rhs.rgb.z),
        )
    }

    /// The channel-wise product, tagged as a colour.
    pub fn attenuate(self, rhs: Color) -> (c: Color)
        ensures
            c@ == as_color(v3_hadamard(self@, rhs@)),
    {
        Color::from_vec3(
            Vec3::new(
                self.rgb.typ,
                self.rgb.x.mul(&rhs.rgb.x),
                self.rgb.y.mul(&rhs.rgb.y),
                self.rgb.z.mul(&rhs.rgb.z),
            ),
        )
    }
}

impl Default for Color {
    /// The colour with all channels `0`; it keeps the tag of the default vector.
    fn default() -> (c: Color)
        ensures
            c@ == black(),
    {
        Color { rgb: Vec3::default() }
    }
}

} // verus!
