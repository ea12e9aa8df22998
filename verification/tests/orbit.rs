use aegis::orbit::{parse_tles, Category};

const ISS_FIXTURE: &str = "ISS (ZARYA)
1 25544U 98067A   24001.50000000  .00016717  00000-0  30074-3 0  9993
2 25544  51.6416 247.4627 0006703 130.5360 325.0288 15.49815305432123
";

#[test]
fn parses_iss_fixture() {
    let tles = parse_tles(ISS_FIXTURE);
    assert_eq!(tles.len(), 1);
    let t = &tles[0];
    assert!(t.name.contains("ISS"));
    assert!(t.line1.starts_with("1 25544"));
    assert!(t.line2.starts_with("2 25544"));
}

#[test]
fn parses_two_line_blocks_without_name() {
    let mut lines = ISS_FIXTURE.lines();
    let _ = lines.next();
    let two_line = lines.collect::<Vec<_>>().join("\n");
    let tles = parse_tles(&two_line);
    assert_eq!(tles.len(), 1);
    assert!(tles[0].name.contains("25544"));
}

#[test]
fn skips_garbage_blocks() {
    let mixed = format!("garbage line\n{ISS_FIXTURE}\nmore garbage");
    let tles = parse_tles(&mixed);
    assert_eq!(tles.len(), 1);
}

#[test]
fn nameless_block_gets_norad_label_without_classification() {
    let text = "1 25544U 98067A\n2 25544 51.6\n";
    let tles = parse_tles(text);
    assert_eq!(tles.len(), 1);
    assert_eq!(tles[0].name, "NORAD 25544");
    assert_eq!(tles[0].line1, "1 25544U 98067A");
    assert_eq!(tles[0].line2, "2 25544 51.6");
}

#[test]
fn lines_are_trimmed_and_crlf_tolerated() {
    let text = "  STARLINK-1007  \r\n\r\n1 44713U 19074A\r\n   2 44713 53.0   \r\n";
    let tles = parse_tles(text);
    assert_eq!(tles.len(), 1);
    assert_eq!(tles[0].name, "STARLINK-1007");
    assert_eq!(tles[0].line1, "1 44713U 19074A");
    assert_eq!(tles[0].line2, "2 44713 53.0");
}

#[test]
fn rate_limit_notice_yields_nothing() {
    let text = format!(
        "GP data has not updated since your last successful download\n{ISS_FIXTURE}"
    );
    assert!(parse_tles(&text).is_empty());
    assert!(parse_tles("").is_empty());
}

#[test]
fn several_blocks_in_order() {
    let text = "A\n1 1\n2 1\n1 2U\n2 2\nB\n1 3\n2 3\n1 lonely\n";
    let tles = parse_tles(text);
    let names: Vec<&str> = tles.iter().map(|t| t.name.as_str()).collect();
    assert_eq!(names, vec!["A", "NORAD 2", "B"]);
}

#[test]
fn category_colours() {
    assert_eq!(Category::Stations.color_srgb8(), [255, 244, 100]);
    assert_eq!(Category::Starlink.color_srgb8(), [120, 200, 255]);
    assert_eq!(Category::Gnss.color_srgb8(), [255, 160, 120]);
    assert_eq!(Category::Weather.color_srgb8(), [180, 240, 180]);
    assert_eq!(Category::Debris.color_srgb8(), [200, 200, 200]);
    assert_eq!(Category::Other.color_srgb8(), [220, 220, 220]);
}

#[test]
fn blank_lines_and_padding_change_nothing() {
    let plain = parse_tles(ISS_FIXTURE);
    let padded = format!(
        " \t\n{}\n\t   \n",
        ISS_FIXTURE.lines().map(|l| format!("  {l}\t")).collect::<Vec<_>>().join("\n \n")
    );
    let spaced = parse_tles(&padded);
    assert_eq!(spaced.len(), plain.len());
    assert_eq!(spaced[0].name, plain[0].name);
    assert_eq!(spaced[0].line1, plain[0].line1);
    assert_eq!(spaced[0].line2, plain[0].line2);
}
