use textchart::{annotate_frame, AxisLabels, Chart, LineStyle, PlottedShape, Rgb, ShapeKind};

fn spaces(n: usize) -> String {
    " ".repeat(n)
}

fn labels(y_max: &str, ticks: &[&str], y_min: &str, x_min: &str, x_max: &str) -> AxisLabels {
    AxisLabels {
        y_max: y_max.to_string(),
        y_ticks: ticks.iter().map(|t| t.to_string()).collect(),
        y_min: y_min.to_string(),
        x_min: x_min.to_string(),
        x_max: x_max.to_string(),
    }
}

#[test]
fn new_chart_is_blank() {
    let chart = Chart::new(32, 3);
    assert_eq!(chart.width(), 32);
    assert_eq!(chart.height(), 3);
    assert_eq!(chart.frame(), spaces(17));
}

#[test]
fn default_line_style_is_dotted() {
    assert_eq!(LineStyle::default(), LineStyle::Dotted);
}

#[test]
fn solid_vline_fills_column() {
    let mut chart = Chart::new(32, 4);
    chart.vline(0, LineStyle::Solid);
    let expected = format!("\u{2847}{}\n\u{2801}{}", spaces(16), spaces(16));
    assert_eq!(chart.frame(), expected);
}

#[test]
fn vline_right_of_chart_draws_nothing() {
    let mut chart = Chart::new(32, 4);
    chart.vline(33, LineStyle::Solid);
    assert_eq!(chart.frame(), format!("{}\n{}", spaces(17), spaces(17)));
}

#[test]
fn hidden_lines_draw_nothing() {
    let mut chart = Chart::new(32, 4);
    chart.vline(3, LineStyle::Hidden);
    chart.hline(2, LineStyle::Hidden);
    assert_eq!(chart.frame(), format!("{}\n{}", spaces(17), spaces(17)));
}

#[test]
fn solid_hline_looks_solid() {
    let mut chart = Chart::new(32, 6);
    chart.hline(4, LineStyle::Solid);
    let frame = chart.frame();
    let first = frame.lines().next().unwrap();
    assert_eq!(first, format!("{}\u{2804}", "\u{2824}".repeat(16)));
    assert!(first.starts_with("⠤⠤⠤"));
}

fn first_rendered_row(style: LineStyle) -> String {
    let mut chart = Chart::new(32, 6);
    chart.hline(4, style);
    let text = chart.render(&labels("1.0", &[], "0.0", "0.0", "1.0")).unwrap();
    text.lines().next().unwrap().to_string()
}

#[test]
fn dotted_hline_looks_dotted() {
    assert!(first_rendered_row(LineStyle::Dotted).starts_with("⠄⠠⠀"));
}

#[test]
fn dashed_hline_looks_dashed() {
    assert!(first_rendered_row(LineStyle::Dashed).starts_with("⠤⠀⠤"));
}

#[test]
fn borders_light_the_corners() {
    let mut chart = Chart::new(32, 4);
    chart.borders();
    let frame = chart.frame();
    let rows: Vec<Vec<char>> = frame.lines().map(|l| l.chars().collect()).collect();
    assert_eq!(rows.len(), 2);
    assert_eq!(rows[0][0], '\u{2841}');
    assert_eq!(rows[0][16], '\u{2841}');
    assert_eq!(rows[1][0], '\u{2801}');
    assert_eq!(rows[0][1], '\u{2808}');
}

#[test]
fn axes_follow_their_styles() {
    let mut chart = Chart::new(32, 4);
    chart.x_axis_style(LineStyle::Hidden);
    chart.y_axis_style(LineStyle::Solid);
    chart.axis(Some(2), Some(0));
    let expected = format!("\u{2847}{}\n\u{2801}{}", spaces(16), spaces(16));
    assert_eq!(chart.frame(), expected);
}

#[test]
fn x_axis_absent_when_zero_off_range() {
    let mut chart = Chart::new(32, 4);
    chart.x_axis(None);
    chart.y_axis(None);
    assert_eq!(chart.frame(), format!("{}\n{}", spaces(17), spaces(17)));
}

#[test]
fn x_axis_is_a_dotted_row() {
    let mut chart = Chart::new(32, 4);
    chart.x_axis(Some(4));
    let frame = chart.frame();
    let first: Vec<char> = frame.lines().next().unwrap().chars().collect();
    assert_eq!(first[0], '\u{2801}');
    assert_eq!(first[1], '\u{2808}');
    assert_eq!(first[2], ' ');
}

#[test]
fn lines_shape_draws_diagonal() {
    let mut chart = Chart::new(32, 8);
    let shapes = vec![PlottedShape { kind: ShapeKind::Lines, points: vec![(0, 0), (4, 4)], color: None }];
    assert!(chart.can_draw(&shapes));
    chart.figures(&shapes);
    let expected = format!(
        "\u{2811}\u{2884}{}\n  \u{2801}{}\n{}",
        spaces(15),
        spaces(14),
        spaces(17)
    );
    assert_eq!(chart.frame(), expected);
}

#[test]
fn points_shape_sets_single_dots() {
    let mut chart = Chart::new(32, 8);
    let shapes = vec![PlottedShape { kind: ShapeKind::Points, points: vec![(1, 1)], color: None }];
    chart.figures(&shapes);
    let frame = chart.frame();
    assert!(frame.starts_with('\u{2810}'));
}

#[test]
fn steps_shape_draws_level_then_riser() {
    let mut chart = Chart::new(32, 8);
    let shapes = vec![PlottedShape { kind: ShapeKind::Steps, points: vec![(0, 0), (4, 4)], color: None }];
    chart.figures(&shapes);
    let expected = format!(
        "\u{2847}{}\n\u{2809}\u{2809}\u{2801}{}\n{}",
        spaces(16),
        spaces(14),
        spaces(17)
    );
    assert_eq!(chart.frame(), expected);
}

#[test]
fn bars_shape_reaches_bottom() {
    let mut chart = Chart::new(32, 8);
    let shapes = vec![PlottedShape { kind: ShapeKind::Bars, points: vec![(0, 4), (2, 4)], color: None }];
    chart.figures(&shapes);
    let frame = chart.frame();
    let rows: Vec<Vec<char>> = frame.lines().map(|l| l.chars().collect()).collect();
    assert_eq!(rows.len(), 3);
    // the bottom row (y = 8) holds the feet of both bars
    assert_ne!(rows[2][0], ' ');
    assert_ne!(rows[2][1], ' ');
}

#[test]
fn single_point_line_draws_nothing() {
    let mut chart = Chart::new(32, 4);
    let shapes = vec![PlottedShape { kind: ShapeKind::Lines, points: vec![(1, 1)], color: None }];
    chart.figures(&shapes);
    assert_eq!(chart.frame(), format!("{}\n{}", spaces(17), spaces(17)));
}

#[test]
fn coloured_shape_sets_dots() {
    let mut chart = Chart::new(32, 8);
    let red = Rgb { r: 255, g: 0, b: 0 };
    let shapes = vec![PlottedShape { kind: ShapeKind::Points, points: vec![(1, 1)], color: Some(red) }];
    chart.figures(&shapes);
    assert!(chart.frame().contains('\u{2810}'));
}

#[test]
fn too_long_line_cannot_be_drawn() {
    let chart = Chart::new(70000, 4);
    let long = vec![PlottedShape { kind: ShapeKind::Lines, points: vec![(0, 0), (70000, 0)], color: None }];
    let short = vec![PlottedShape { kind: ShapeKind::Lines, points: vec![(0, 0), (10, 0)], color: None }];
    assert!(!chart.can_draw(&long));
    assert!(chart.can_draw(&short));
}

#[test]
fn screen_points_drop_and_flip() {
    let chart = Chart::new(32, 8);
    let raw = vec![(0, 0), (33, 1), (5, 9), (32, 8)];
    assert_eq!(chart.screen_points(&raw), vec![(0, 8), (32, 0)]);
}

#[test]
fn curve_points_skip_gaps() {
    let chart = Chart::new(32, 8);
    let samples = vec![Some(0), None, Some(8)];
    assert_eq!(chart.curve_points(&samples), vec![(0, 8), (2, 0)]);
}

#[test]
fn tick_count_follows_height() {
    assert_eq!(Chart::new(120, 60).y_tick_count(), 4);
    assert_eq!(Chart::new(32, 13).y_tick_count(), 0);
    assert_eq!(Chart::new(32, 14).y_tick_count(), 1);
}

#[test]
fn annotate_two_rows() {
    let text = annotate_frame(&"ab\ncd".to_string(), &labels("1", &[], "0", "-1", "2"), 32);
    assert_eq!(text, format!("ab 1\ncd 0\n-1{}2\n", spaces(13)));
}

#[test]
fn annotate_blanks_spaces() {
    let text = annotate_frame(&"a b".to_string(), &labels("1", &[], "0", "-1", "2"), 32);
    assert_eq!(text, "a\u{2800}b");
}

#[test]
fn annotate_places_tick_on_fourth_row() {
    let frame = "r0\nr1\nr2\nr3\nr4\nr5".to_string();
    let text = annotate_frame(&frame, &labels("M", &["t"], "m", "a", "b"), 32);
    assert_eq!(text, format!("r0 M\nr1\nr2\nr3 t\nr4\nr5 m\na{}b\n", spaces(14)));
}

#[test]
fn annotate_pads_by_bytes_of_x_max() {
    let text = annotate_frame(&"a\nb".to_string(), &labels("1", &[], "0", "x", "é"), 32);
    assert_eq!(text, format!("a 1\nb 0\nx{}é\n", spaces(13)));
}

#[test]
fn render_short_chart_with_tick_fails() {
    // a chart 14 dots tall has four rows: too few for its one tick label
    let chart = Chart::new(32, 14);
    assert_eq!(chart.y_tick_count(), 1);
    assert_eq!(chart.render(&labels("1.0", &["0.5"], "0.0", "0.0", "1.0")), None);
}

#[test]
fn render_places_ticks() {
    let chart = Chart::new(32, 28);
    assert_eq!(chart.y_tick_count(), 2);
    let text = chart.render(&labels("1.0", &["0.7", "0.3"], "0.0", "-1.0", "1.0")).unwrap();
    let rows: Vec<&str> = text.lines().collect();
    assert_eq!(rows.len(), 9);
    assert!(rows[0].ends_with(" 1.0"));
    assert!(rows[3].ends_with(" 0.7"));
    assert!(rows[6].ends_with(" 0.3"));
    assert!(rows[7].ends_with(" 0.0"));
    assert_eq!(rows[8], format!("-1.0{}1.0", spaces(9)));
}

#[test]
fn render_rejects_long_x_label() {
    let chart = Chart::new(32, 4);
    let long = "x".repeat(17);
    assert_eq!(chart.render(&labels("1", &[], "0", "0", &long)), None);
}

#[test]
fn render_single_row_keeps_frame() {
    let chart = Chart::new(32, 3);
    let text = chart.render(&labels("1", &[], "0", "0", "1")).unwrap();
    assert_eq!(text, "\u{2800}".repeat(17));
}

#[test]
fn later_lines_keep_earlier_dots() {
    let mut chart = Chart::new(32, 4);
    chart.vline(0, LineStyle::Solid);
    chart.hline(4, LineStyle::Solid);
    let frame = chart.frame();
    let first: Vec<char> = frame.lines().next().unwrap().chars().collect();
    assert_eq!(first[0], '\u{284F}');
    assert_eq!(first[1], '\u{2809}');
}

#[test]
fn uncoloured_drawing_gives_plain_frame() {
    let mut chart = Chart::new(32, 8);
    chart.borders();
    chart.axis(Some(4), Some(16));
    let frame = chart.frame();
    assert!(!frame.contains('\u{1b}'));
    assert_eq!(frame.lines().count(), 3);
}

#[test]
fn blank_chart_labels_every_third_row() {
    let chart = Chart::new(32, 28);
    let frame = chart.frame().replace(' ', "\u{2800}");
    let f: Vec<&str> = frame.lines().collect();
    assert_eq!(f.len(), 8);
    let text = chart.render(&labels("3.0", &["2.0", "1.0"], "0.0", "0.0", "1.0")).unwrap();
    let expected = [
        format!("{} 3.0", f[0]),
        f[1].to_string(),
        f[2].to_string(),
        format!("{} 2.0", f[3]),
        f[4].to_string(),
        f[5].to_string(),
        format!("{} 1.0", f[6]),
        format!("{} 0.0", f[7]),
        format!("0.0{}1.0", spaces(10)),
    ]
    .join("\n")
        + "\n";
    assert_eq!(text, expected);
}

#[test]
fn blank_frame_has_quarter_height_newlines() {
    let frame = Chart::new(40, 21).frame();
    assert!(frame.chars().all(|c| c == ' ' || c == '\n'));
    assert_eq!(frame.matches('\n').count(), 5);
    assert!(frame.lines().all(|l| l.chars().count() == 21));
}

#[test]
fn drawing_twice_is_drawing_once() {
    let shapes = vec![
        PlottedShape { kind: ShapeKind::Bars, points: vec![(0, 4), (6, 2), (9, 7)], color: None },
        PlottedShape { kind: ShapeKind::Lines, points: vec![(1, 1), (30, 6)], color: None },
    ];
    let mut once = Chart::new(32, 8);
    once.figures(&shapes);
    let mut twice = Chart::new(32, 8);
    twice.figures(&shapes);
    twice.figures(&shapes);
    assert_eq!(once.frame(), twice.frame());
}

#[test]
fn coloured_shape_has_the_same_dots() {
    let points = vec![(0, 0), (4, 4), (9, 2)];
    let mut plain = Chart::new(32, 8);
    plain.figures(&vec![PlottedShape { kind: ShapeKind::Steps, points: points.clone(), color: None }]);
    let mut tinted = Chart::new(32, 8);
    let rgb = Rgb { r: 1, g: 2, b: 3 };
    tinted.figures(&vec![PlottedShape { kind: ShapeKind::Steps, points, color: Some(rgb) }]);
    let strip = |s: String| -> String { s.chars().filter(|c| *c == '\n' || ('\u{2800}'..='\u{28ff}').contains(c) || *c == ' ').collect() };
    assert_eq!(strip(plain.frame()), strip(tinted.frame()));
    assert_eq!(plain.frame().matches('\n').count(), tinted.frame().matches('\n').count());
}

#[test]
fn vertical_line_above_i32_range_fits() {
    let chart = Chart::new(32, 4);
    let high = 0x8000_0000u32;
    let ok = vec![PlottedShape { kind: ShapeKind::Lines, points: vec![(high, 0), (high, 3)], color: None }];
    let across = vec![PlottedShape { kind: ShapeKind::Lines, points: vec![(high - 1, 0), (high + 1, 0)], color: None }];
    assert!(chart.can_draw(&ok));
    assert!(!chart.can_draw(&across));
}

#[test]
fn on_chart_shapes_of_small_chart_can_be_drawn() {
    let chart = Chart::new(65535, 65535);
    let shapes = vec![
        PlottedShape { kind: ShapeKind::Bars, points: vec![(0, 65535), (65535, 0)], color: None },
        PlottedShape { kind: ShapeKind::Lines, points: vec![(65535, 65535), (0, 0)], color: None },
    ];
    assert!(chart.can_draw(&shapes));
}
