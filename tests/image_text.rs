use raytrace::ppm::{color_line, encode_image, encode_row, ppm_header, push_decimal, Rgb};

fn text(bytes: &[u8]) -> String {
    String::from_utf8(bytes.to_vec()).unwrap()
}

fn gray(v: u8) -> Rgb {
    Rgb { r: v, g: v, b: v }
}

#[test]
fn header_for_three_by_two() {
    assert_eq!(text(&ppm_header(3, 2)), "P3\n3 2\n255\n");
}

#[test]
fn header_for_wide_image() {
    assert_eq!(text(&ppm_header(1000, 625)), "P3\n1000 625\n255\n");
}

#[test]
fn decimal_of_zero_and_large_values() {
    let mut out: Vec<u8> = Vec::new();
    push_decimal(&mut out, 0);
    assert_eq!(text(&out), "0");
    push_decimal(&mut out, 10);
    assert_eq!(text(&out), "010");
    let mut big: Vec<u8> = Vec::new();
    push_decimal(&mut big, u64::MAX);
    assert_eq!(text(&big), "18446744073709551615");
}

#[test]
fn color_line_of_extremes() {
    assert_eq!(text(&color_line(Rgb { r: 255, g: 0, b: 7 })), "255 0 7\n");
    assert_eq!(text(&color_line(gray(0))), "0 0 0\n");
}

#[test]
fn row_of_pixels_left_to_right() {
    let row = vec![Rgb { r: 1, g: 2, b: 3 }, Rgb { r: 40, g: 50, b: 60 }];
    assert_eq!(text(&encode_row(&row)), "1 2 3\n40 50 60\n");
    assert!(encode_row(&Vec::new()).is_empty());
}

#[test]
fn three_by_two_image_has_header_then_six_lines() {
    let top = encode_row(&vec![gray(0), gray(128), gray(255)]);
    let bottom = encode_row(&vec![Rgb { r: 9, g: 99, b: 199 }, gray(1), gray(2)]);
    let image = text(&encode_image(3, 2, &vec![top, bottom]));
    assert!(image.starts_with("P3\n3 2\n255\n"));
    let body = &image["P3\n3 2\n255\n".len()..];
    let lines: Vec<&str> = body.lines().collect();
    assert_eq!(lines.len(), 6);
    assert_eq!(lines, vec!["0 0 0", "128 128 128", "255 255 255", "9 99 199", "1 1 1", "2 2 2"]);
    assert!(body.ends_with('\n'));
}

#[test]
fn image_without_rows_is_its_header() {
    assert_eq!(text(&encode_image(0, 0, &Vec::new())), "P3\n0 0\n255\n");
}

#[test]
fn four_by_three_image_has_one_line_per_pixel() {
    let mut rows: Vec<Vec<u8>> = Vec::new();
    for j in 0..3u8 {
        let row: Vec<Rgb> = (0..4u8).map(|i| Rgb { r: i, g: j, b: 200 }).collect();
        rows.push(encode_row(&row));
    }
    let image = text(&encode_image(4, 3, &rows));
    let body = image.strip_prefix("P3\n4 3\n255\n").unwrap();
    assert_eq!(body.matches('\n').count(), 12);
    assert!(body.starts_with("0 0 200\n1 0 200\n"));
    assert!(body.ends_with("3 2 200\n"));
}
