use column_signal::ImageData;
use column_signal::Signal;
use column_signal::get_points;

use plotters::prelude::BitMapBackend;
use plotters::prelude::ChartBuilder;
use plotters::prelude::Circle;
use plotters::prelude::EmptyElement;
use plotters::prelude::IntoDrawingArea;
use plotters::prelude::PointSeries;
use plotters::prelude::RED;
use plotters::prelude::WHITE;

/// Builds the synthetic 8-wide, 440-tall image whose red channel at row `y`
/// is `y mod 256`.
fn ramp_image() -> ImageData {
    let mut bytes = Vec::with_capacity(8 * 440 * 4);
    for y in 0..440usize {
        for _ in 0..8 {
            bytes.push((y % 256) as u8);
            bytes.push(0);
            bytes.push(0);
            bytes.push(255);
        }
    }
    ImageData::new(8, 440, bytes).expect("byte count matches the dimensions")
}

/// Renders the signal onto the fixed 1000 by 300 canvas with the fixed axis
/// domains, a red circular marker of radius 3 per point, and writes it to
/// `path`. Labels are left out so the test does not depend on the fonts a
/// machine happens to have.
fn render(signal: &Signal, path: &str) {
    let root = BitMapBackend::new(path, (1000, 300)).into_drawing_area();
    root.fill(&WHITE).unwrap();
    let mut chart = ChartBuilder::on(&root)
        .x_label_area_size(30)
        .y_label_area_size(40)
        .margin_right(5)
        .margin_top(10)
        .build_cartesian_2d(0f32..120f32, 0f32..1.01f32)
        .unwrap();
    let coords: Vec<(f32, f32)> = signal
        .points
        .iter()
        .map(|p| (p.x_milli as f32 / 1000.0, p.y_num as f32 / p.y_den as f32))
        .collect();
    chart
        .draw_series(PointSeries::of_element(coords, 3, &RED, &|c, s, st| {
            EmptyElement::at(c) + Circle::new((0, 0), s, st.filled())
        }))
        .unwrap();
    root.present().unwrap();
}

#[test]
fn t_plot_file_dimensions_and_markers() {
    let signal = get_points(&ramp_image(), "r").unwrap();
    assert_eq!(signal.points.len(), 440);
    let path = "/tmp/column_signal_render_dimensions.png";
    render(&signal, path);

    let rendered = raster::open(path).unwrap();
    assert_eq!(rendered.width, 1000);
    assert_eq!(rendered.height, 300);

    // Red marker pixels must appear, stretching from the first point near the
    // left edge of the plotting area to the last near x = 116.335 of the
    // [0, 120] domain.
    let mut min_red_x = i32::MAX;
    let mut max_red_x = i32::MIN;
    for y in 0..rendered.height {
        for x in 0..rendered.width {
            let px = rendered.get_pixel(x, y).unwrap();
            if px.r == 255 && px.g == 0 && px.b == 0 {
                min_red_x = min_red_x.min(x);
                max_red_x = max_red_x.max(x);
            }
        }
    }
    assert!(min_red_x <= 45, "leftmost marker at x = {}", min_red_x);
    assert!(max_red_x >= 955, "rightmost marker at x = {}", max_red_x);
}

#[test]
fn t_plot_is_pixel_identical_across_runs() {
    let image = ramp_image();
    let first = "/tmp/column_signal_render_first.png";
    let second = "/tmp/column_signal_render_second.png";
    render(&get_points(&image, "r").unwrap(), first);
    render(&get_points(&image, "r").unwrap(), second);

    let a = raster::open(first).unwrap();
    let b = raster::open(second).unwrap();
    assert_eq!(a.width, b.width);
    assert_eq!(a.height, b.height);
    assert_eq!(a.bytes, b.bytes);
}
