use ray_tracer_challenge::canvas::Canvas;
use ray_tracer_challenge::ppm::{ppm_body, ppm_header};

type Rgb = (f64, f64, f64);

/// Scale one color channel to its 0..=255 sample.
fn to_sample(v: f64) -> u8 {
    (v * 255.0).round() as u8
}

/// Flatten a canvas of colors into its samples, three per pixel.
fn samples_of(c: &Canvas<Rgb>) -> Vec<u8> {
    let mut samples = Vec::new();
    for y in 0..c.height() {
        for x in 0..c.width() {
            let (r, g, b) = c.pixel_at(x, y);
            samples.push(to_sample(r));
            samples.push(to_sample(g));
            samples.push(to_sample(b));
        }
    }
    samples
}

#[test]
fn constructing_the_ppm_header() {
    let ppm = ppm_header(5, 3);
    let expected = b"P3\n5 3\n255".to_vec();
    assert_eq!(expected, ppm)
}

#[test]
fn constructing_the_ppm_pixel_data() {
    let mut c: Canvas<Rgb> = Canvas::new(5, 3, (0.0, 0.0, 0.0));
    c.write_pixel(0, 0, (1.5, 0.0, 0.0));
    c.write_pixel(2, 1, (0.0, 0.5, 0.0));
    c.write_pixel(4, 2, (-0.5, 0.0, 1.0));
    let expected = "255 0 0 0 0 0 0 0 0 0 0 0 0 0 0\n0 0 0 0 0 0 0 128 0 0 0 0 0 0 0\n0 0 0 0 0 0 0 0 0 0 0 0 0 0 255\n";

    assert_eq!(expected.as_bytes().to_vec(), ppm_body(5, 3, &samples_of(&c)));
}

#[test]
fn splitting_long_lines_in_ppm_files() {
    let mut c: Canvas<Rgb> = Canvas::new(10, 2, (0.0, 0.0, 0.0));
    for y in 0..2 {
        for x in 0..10 {
            c.write_pixel(x, y, (1.0, 0.8, 0.6));
        }
    }
    let expected = r#"255 204 153 255 204 153 255 204 153 255 204 153 255 204 153 255 204
153 255 204 153 255 204 153 255 204 153 255 204 153
255 204 153 255 204 153 255 204 153 255 204 153 255 204 153 255 204
153 255 204 153 255 204 153 255 204 153 255 204 153
"#;
    assert_eq!(expected.as_bytes().to_vec(), ppm_body(10, 2, &samples_of(&c)));
}

#[test]
fn a_single_pixel_image_encodes_on_one_line() {
    let samples: Vec<u8> = vec![0, 128, 255];
    assert_eq!(b"0 128 255\n".to_vec(), ppm_body(1, 1, &samples));
    assert_eq!(b"P3\n1 1\n255".to_vec(), ppm_header(1, 1));
}
