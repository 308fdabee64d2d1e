use raytracer::color::{encode_channel, Color, Rgb};
use raytracer::fixed::Fixed;
use raytracer::vec::{Vec3, VecTypes};

const ONE: i64 = 1 << 32;

fn fx(x: f64) -> Fixed {
    Fixed::from_raw((x * ONE as f64).round() as i64)
}

fn val(x: Fixed) -> f64 {
    x.raw() as f64 / ONE as f64
}

fn col(r: f64, g: f64, b: f64) -> Color {
    Color::new(fx(r), fx(g), fx(b))
}

fn raws(c: Color) -> [i64; 3] {
    [c.rgb.x.raw(), c.rgb.y.raw(), c.rgb.z.raw()]
}

#[test]
fn new_colour_is_tagged_as_colour() {
    let c = col(0.1, 0.2, 0.3);
    assert_eq!(c.rgb.typ, VecTypes::Color);
    assert_eq!(raws(c), [fx(0.1).raw(), fx(0.2).raw(), fx(0.3).raw()]);
}

#[test]
fn default_colour_is_black() {
    let c = Color::default();
    assert_eq!(raws(c), [0, 0, 0]);
    assert_eq!(c.rgb.typ, VecTypes::Coordinates);
}

#[test]
fn scaling_a_colour() {
    assert_eq!(raws(col(0.5, 0.25, 1.0).mul(fx(0.5))), raws(col(0.25, 0.125, 0.5)));
}

#[test]
fn adding_colours() {
    assert_eq!(raws(col(0.5, 0.25, 1.0).add(col(0.25, 0.25, 0.5))), raws(col(0.75, 0.5, 1.5)));
    let mut c = col(0.5, 0.25, 1.0);
    c.add_assign(col(0.25, 0.25, 0.5));
    assert_eq!(raws(c), raws(col(0.75, 0.5, 1.5)));
    assert_eq!(Color::default().add(col(0.5, 0.5, 0.5)).rgb.typ, VecTypes::Color);
}

#[test]
fn attenuation_multiplies_by_channel() {
    assert_eq!(raws(col(0.5, 0.25, 1.0).attenuate(col(0.5, 2.0, 0.0))), raws(col(0.25, 0.5, 0.0)));
    assert_eq!(col(0.5, 0.25, 1.0).attenuate(col(0.5, 2.0, 0.0)).rgb.typ, VecTypes::Color);
}

#[test]
fn colour_from_a_vector_takes_its_components() {
    let v = Vec3::new(VecTypes::Coordinates, fx(0.5), fx(0.25), fx(1.0));
    let c = Color::from_vec3(v);
    assert_eq!(c.rgb.typ, VecTypes::Color);
    assert_eq!(raws(c), raws(col(0.5, 0.25, 1.0)));
}

#[test]
fn text_bytes_scale_by_255_999() {
    assert_eq!(col(1.0, 0.5, 0.0).text_bytes(), Rgb([255, 127, 0]));
    assert_eq!(col(2.0, -1.0, 0.25).text_bytes(), Rgb([255, 0, 63]));
}

#[test]
fn text_line_holds_three_decimal_numbers() {
    assert_eq!(col(1.0, 0.5, 0.0).to_string(), "255 127 0\n");
    assert_eq!(col(0.25, 0.04, 0.4).to_string(), "63 10 102\n");
}

#[test]
fn gamma_encoding_takes_the_square_root() {
    assert_eq!(encode_channel(fx(0.25)), 128);
    assert_eq!(encode_channel(fx(0.0)), 0);
    assert_eq!(encode_channel(fx(-0.5)), 0);
    assert_eq!(encode_channel(fx(1.0)), 255);
    assert_eq!(encode_channel(fx(4.0)), 255);
    assert_eq!(encode_channel(fx(0.0625)), 64);
    assert_eq!(encode_channel(fx(0.5)), 181);
}

#[test]
fn display_colour_encodes_every_channel() {
    assert_eq!(Rgb::from_color(col(0.25, 1.0, 0.0)), Rgb([128, 255, 0]));
    assert_eq!(Rgb::from_color(col(0.0625, 0.5, -1.0)), Rgb([64, 181, 0]));
}

#[test]
fn colour_from_bytes_divides_by_255_999() {
    let c = Color::from_rgb(Rgb([255, 0, 128]));
    assert_eq!(c.rgb.typ, VecTypes::Color);
    assert!((val(c.rgb.x) - 255.0 / 255.999).abs() < 1e-8);
    assert_eq!(c.rgb.y.raw(), 0);
    assert!((val(c.rgb.z) - 128.0 / 255.999).abs() < 1e-8);
    assert_eq!(c.rgb.x.raw(), Fixed::from_int(255).div(&Fixed::from_ratio(255999, 1000)).raw());
}

#[test]
fn bytes_survive_the_round_trip_through_text() {
    for b in [0u8, 1, 17, 128, 254, 255] {
        let c = Color::from_rgb(Rgb([b, b, b]));
        // The quotient is rounded towards zero, so the byte may come back one lower.
        let back = c.text_bytes().0[0];
        assert!(back == b || back + 1 == b);
    }
}
