use raytracer::canvas::Canvas;
use raytracer::exporter::{Exporter, PPMExporter, MAX_PPM_LINE_LENGTH};

fn lines_of(bytes: &[u8]) -> Vec<String> {
    String::from_utf8(bytes.to_vec()).unwrap().lines().map(|l| l.to_string()).collect()
}

#[test]
fn ppm_export_creates_header() {
    let exporter = PPMExporter::new();
    let canvas = Canvas::new(5, 3, (0u8, 0u8, 0u8));

    let out = exporter.export(&canvas);

    let lines = lines_of(&out);
    assert_eq!(lines[0], "P3");
    assert_eq!(lines[1], "5 3");
    assert_eq!(lines[2], "255");
}

#[test]
fn ppm_export_creates_data() {
    let exporter = PPMExporter::new();
    let mut canvas = Canvas::new(5, 3, (0u8, 0u8, 0u8));

    canvas.write_pixel(0, 0, (255, 0, 0));
    canvas.write_pixel(2, 1, (0, 128, 0));
    canvas.write_pixel(4, 2, (0, 0, 255));
    let out = exporter.export(&canvas);

    let lines = lines_of(&out);
    assert_eq!(lines[3], "255 0 0 0 0 0 0 0 0 0 0 0 0 0 0");
    assert_eq!(lines[4], "0 0 0 0 0 0 0 128 0 0 0 0 0 0 0");
    assert_eq!(lines[5], "0 0 0 0 0 0 0 0 0 0 0 0 0 0 255");
}

#[test]
fn ppm_export_splits_after_max_length() {
    let exporter = PPMExporter::new();
    let canvas = Canvas::new(MAX_PPM_LINE_LENGTH / 3 + 1, 1, (0u8, 0u8, 0u8));

    let out = exporter.export(&canvas);

    // 72 one-digit samples: 35 fit on a line of 69 bytes, the rest go on.
    let lines = lines_of(&out);
    assert_eq!(lines.len(), 6);
    assert_eq!(lines[3].len(), 69);
    assert_eq!(lines[4].len(), 69);
    assert_eq!(lines[5], "0 0");
}

#[test]
fn ppm_export_terminates_with_newline() {
    let exporter = PPMExporter::new();
    let canvas = Canvas::new(3, 2, (0u8, 0u8, 0u8));

    let out = exporter.export(&canvas);

    assert!(out.iter().last().unwrap().eq(&b'\n'));
}

#[test]
fn ppm_export_of_black_canvas_keeps_lines_short() {
    let exporter = PPMExporter::new();
    let canvas = Canvas::new(100, 7, (0u8, 0u8, 0u8));

    let out = exporter.export(&canvas);

    assert_eq!(*out.last().unwrap(), b'\n');
    for line in lines_of(&out) {
        assert!(line.len() <= MAX_PPM_LINE_LENGTH);
    }
}

#[test]
fn ppm_export_wraps_three_digit_samples() {
    let exporter = PPMExporter::new();
    let canvas = Canvas::new(10, 2, (255u8, 255u8, 255u8));

    let out = exporter.export(&canvas);

    let row_start = vec!["255"; 17].join(" ");
    let row_end = vec!["255"; 13].join(" ");
    let expected = format!("P3\n10 2\n255\n{}\n{}\n{}\n{}\n", row_start, row_end, row_start, row_end);
    assert_eq!(String::from_utf8(out).unwrap(), expected);
}

#[test]
fn ppm_export_starts_each_row_on_a_new_line() {
    let exporter = PPMExporter::new();
    let mut canvas = Canvas::new(2, 2, (0u8, 0u8, 0u8));
    canvas.write_pixel(1, 0, (1, 20, 200));
    canvas.write_pixel(0, 1, (9, 99, 100));

    let out = exporter.export(&canvas);

    assert_eq!(
        String::from_utf8(out).unwrap(),
        "P3\n2 2\n255\n0 0 0 1 20 200\n9 99 100 0 0 0\n"
    );
}

#[test]
fn ppm_export_of_empty_canvas_is_header() {
    let exporter = PPMExporter::new();

    let wide = exporter.export(&Canvas::new(4, 0, (0u8, 0u8, 0u8)));
    let narrow = exporter.export(&Canvas::new(0, 4, (0u8, 0u8, 0u8)));

    assert_eq!(String::from_utf8(wide).unwrap(), "P3\n4 0\n255\n");
    assert_eq!(String::from_utf8(narrow).unwrap(), "P3\n0 4\n255\n");
}
