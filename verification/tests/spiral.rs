use qsgal::spiral::{phi_spiral, SpiralPoint};

#[test]
fn spiral_document_wraps_each_point_in_a_circle() {
    let points = vec![
        SpiralPoint {
            cx: String::from("1.000000"),
            cy: String::from("0.000000"),
            green: 220,
            opacity: String::from("0.40"),
        },
        SpiralPoint {
            cx: String::from("-0.815215"),
            cy: String::from("0.579081"),
            green: 255,
            opacity: String::from("1.00"),
        },
    ];
    let svg = phi_spiral(&points);
    let mut expected = String::from("<svg viewBox='-2 -2 4 4' style='background:black;'>");
    expected.push_str(
        "<circle cx='1.000000' cy='0.000000' r='0.008' fill='rgb(255,220,20)' \
         stroke='#ffaa00' stroke-width='0.002' opacity='0.40'/>",
    );
    expected.push_str(
        "<circle cx='-0.815215' cy='0.579081' r='0.008' fill='rgb(255,255,20)' \
         stroke='#ffaa00' stroke-width='0.002' opacity='1.00'/>",
    );
    expected.push_str(
        "<filter id='g'><feGaussianBlur stdDeviation='0.01'/><feMerge><feMergeNode/>\
         <feMergeNode in='SourceGraphic'/></feMerge></filter></svg>",
    );
    assert_eq!(svg, expected);
}

#[test]
fn spiral_document_without_points_is_just_the_frame() {
    let svg = phi_spiral(&Vec::new());
    assert!(svg.starts_with("<svg viewBox='-2 -2 4 4' style='background:black;'>"));
    assert!(svg.ends_with("</filter></svg>"));
    assert!(!svg.contains("<circle"));
}
