use i3_awm::xrandr::{
    check_geometry, check_report, connected_names, parse, parse_geometry, parse_mode_resolution,
    parse_signed, parse_two_offsets, query,
};

const SAMPLE: &str = "Screen 0: minimum 320 x 200, current 1280 x 720, maximum 16384 x 16384
eDP-1 connected primary 1280x720+0+0 (normal left inverted right x axis y axis) 309mm x 174mm
   1920x1080     60.00 +  59.97    59.96
   1280x720      60.00    59.99    59.86*   59.74
HDMI-1 disconnected (normal left inverted right x axis y axis)
DP-2 connected 1920x1080+1280+0 (normal left inverted right x axis y axis) 520mm x 290mm
   1920x1080     60.00 +
";

#[test]
fn parses_primary_active_output() {
    let outputs = parse(SAMPLE);
    let edp_output = outputs.iter().find(|output| output.name == "eDP-1").unwrap();
    assert!(edp_output.connected && edp_output.active && edp_output.primary);
    assert_eq!(edp_output.resolution, Some((1280, 720)));
    assert_eq!(edp_output.position, Some((0, 0)));
    assert_eq!(edp_output.preferred, Some((1920, 1080)));
}

#[test]
fn parses_disconnected_and_secondary() {
    let outputs = parse(SAMPLE);
    let hdmi_output = outputs.iter().find(|output| output.name == "HDMI-1").unwrap();
    assert!(!hdmi_output.connected && !hdmi_output.active);

    let secondary_output = outputs.iter().find(|output| output.name == "DP-2").unwrap();
    assert!(secondary_output.connected && secondary_output.active && !secondary_output.primary);
    assert_eq!(secondary_output.resolution, Some((1920, 1080)));
    assert_eq!(secondary_output.position, Some((1280, 0)));
}

#[test]
fn parses_negative_offsets() {
    assert_eq!(parse_geometry("1280x720-100+0"), Some((1280, 720, -100, 0)));
    assert_eq!(parse_geometry("1920x1080+0+0"), Some((1920, 1080, 0, 0)));
}

#[test]
fn sample_is_read_in_order() {
    let outputs = parse(SAMPLE);
    let names: Vec<&str> = outputs.iter().map(|output| output.name.as_str()).collect();
    assert_eq!(names, vec!["eDP-1", "HDMI-1", "DP-2"]);
    assert_eq!(outputs[1].preferred, None);
    assert_eq!(outputs[2].preferred, Some((1920, 1080)));
    for output in &outputs {
        assert_eq!(output.active, output.resolution.is_some());
        assert_eq!(output.active, output.position.is_some());
    }
}

#[test]
fn empty_report_has_no_outputs() {
    assert!(parse("").is_empty());
    assert!(parse("\n\n").is_empty());
    assert!(parse("   1920x1080 60.00 +\n").is_empty());
}

#[test]
fn unknown_lines_are_skipped() {
    let outputs = parse("VGA-1\nVGA-2 unknown 1x1+0+0\nDP-1 connected\nwarning: x\n   800x600 +\n");
    assert_eq!(outputs.len(), 1);
    assert_eq!(outputs[0].name, "DP-1");
    assert!(outputs[0].connected && !outputs[0].active && !outputs[0].primary);
    assert_eq!(outputs[0].preferred, Some((800, 600)));
}

#[test]
fn first_preferred_mode_counts() {
    let outputs = parse("A connected\n\tbogus +\n   640x480i 60 +\n   800x600 60 +\n");
    assert_eq!(outputs[0].preferred, Some((640, 480)));
    let none = parse("A connected\n   640x480 60\n");
    assert_eq!(none[0].preferred, None);
}

#[test]
fn last_geometry_counts_and_disconnected_may_be_active() {
    let outputs = parse("A disconnected primary 1x2+3+4 5x6-7-8\r\n");
    assert!(!outputs[0].connected && outputs[0].active && outputs[0].primary);
    assert_eq!(outputs[0].resolution, Some((5, 6)));
    assert_eq!(outputs[0].position, Some((-7, -8)));
}

#[test]
fn geometry_tokens() {
    assert_eq!(parse_geometry("1920x1080+1920+-0"), Some((1920, 1080, 1920, 0)));
    assert_eq!(parse_geometry("1x1+0+-5"), Some((1, 1, 0, -5)));
    assert_eq!(parse_geometry("1x1+0--5"), Some((1, 1, 0, 5)));
    assert_eq!(parse_geometry("+1x1+0+0"), Some((1, 1, 0, 0)));
    assert_eq!(parse_geometry("1x1-2147483647+2147483647"), Some((1, 1, -2147483647, 2147483647)));
    assert_eq!(parse_geometry(""), None);
    assert_eq!(parse_geometry("x"), None);
    assert_eq!(parse_geometry("1920x1080"), None);
    assert_eq!(parse_geometry("1920x1080+0"), None);
    assert_eq!(parse_geometry("x1080+0+0"), None);
    assert_eq!(parse_geometry("1920x+0+0"), None);
    assert_eq!(parse_geometry("4294967296x1+0+0"), None);
    assert_eq!(parse_geometry("1x1+2147483648+0"), None);
    assert_eq!(parse_geometry("1x1-2147483648+0"), None);
    assert_eq!(parse_geometry("1x1++0"), None);
}

#[test]
fn offsets_and_signed_numbers() {
    assert_eq!(parse_two_offsets("+0+0"), Some((0, 0)));
    assert_eq!(parse_two_offsets("-100+0"), Some((-100, 0)));
    assert_eq!(parse_two_offsets("5-3"), Some((5, -3)));
    assert_eq!(parse_two_offsets(""), None);
    assert_eq!(parse_two_offsets("+5"), None);
    assert_eq!(parse_signed("+-5"), Some(-5));
    assert_eq!(parse_signed("--5"), Some(5));
    assert_eq!(parse_signed("7"), Some(7));
    assert_eq!(parse_signed("+-2147483648"), Some(-2147483648));
    assert_eq!(parse_signed("-"), None);
    assert_eq!(parse_signed(""), None);
}

#[test]
fn mode_lines() {
    assert_eq!(parse_mode_resolution("   1920x1080  60.00 +"), Some((1920, 1080)));
    assert_eq!(parse_mode_resolution("  1920x1080i 60.00"), Some((1920, 1080)));
    assert_eq!(parse_mode_resolution("  1920x 60.00"), None);
    assert_eq!(parse_mode_resolution("  1920 60.00"), None);
    assert_eq!(parse_mode_resolution("   "), None);
}

#[test]
fn offsets_out_of_range_are_told() {
    assert!(check_geometry("1x1+0+0"));
    assert!(!check_geometry("1x1+0--2147483648"));
    assert!(check_geometry("1x--2147483648+0"));
    assert!(check_report(SAMPLE));
    assert!(!check_report("A connected 1x1+0--2147483648\n"));
    assert!(check_report("   1x1+0--2147483648\n"));
    assert!(query(Some(b"A connected 1x1+0--2147483648\n")).is_none());
}

#[test]
fn printed_geometry_reads_back() {
    for (width, height, x, y) in [(1, 2, 3, 4), (1920, 1080, -1280, 0), (u32::MAX, 0, i32::MAX, -i32::MAX)] {
        let token = format!("{width}x{height}{x:+}{y:+}");
        assert_eq!(parse_geometry(&token), Some((width, height, x, y)));
    }
}

#[test]
fn query_reads_bytes() {
    assert!(query(None).unwrap().is_empty());
    let outputs = query(Some(SAMPLE.as_bytes())).unwrap();
    assert_eq!(outputs.len(), 3);
    let outputs = query(Some(b"DP\xff1 connected\n")).unwrap();
    assert_eq!(outputs[0].name, "DP\u{fffd}1");
}

#[test]
fn connected_names_are_collected_once() {
    let names = connected_names(&parse("A connected\nB disconnected\nA connected\nC connected\n"));
    assert_eq!(names.len(), 2);
    assert!(names.contains("A") && names.contains("C"));
    assert!(!names.contains("B"));
}

#[test]
fn joined_reports_are_read_as_both() {
    let first = "Screen 0: x\nA connected primary 1x2+3+4\n   1x2 60.00 +\n";
    let second = "B disconnected\r\nC connected\n   800x600 60.00 +";
    for (a, b) in [("", second), (first, second), (SAMPLE, second), ("\n", SAMPLE)] {
        let mut parts = parse(a);
        parts.extend(parse(b));
        assert_eq!(format!("{:?}", parse(&format!("{a}{b}"))), format!("{parts:?}"));
    }
}

#[test]
fn other_lines_say_nothing() {
    let header = "A connected 1x2+3+4\n";
    let modes = "   640x480 60.00\n   800x600 60.00 +\n";
    let expected = format!("{:?}", parse(&format!("{header}{modes}")));
    for line in ["Screen 0: A connected\n", "\n", "\r\n", "VGA-1\n", "VGA-1 unknown 1x1+0+0\n"] {
        for text in [
            format!("{line}{header}{modes}"),
            format!("{header}{line}{modes}"),
            format!("{header}{modes}{line}"),
        ] {
            assert_eq!(format!("{:?}", parse(&text)), expected);
        }
    }
    assert_eq!(format!("{:?}", parse(&format!("{header}{modes}VGA-1"))), expected);
}
