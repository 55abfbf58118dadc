use text_adventure::{format_description, print_map_issue, Coord, Level};

#[test]
fn description_paragraphs() {
    assert_eq!(
        format_description("Hello world.\nSecond line.\n\nNew para."),
        "    Hello world. Second line. \n\n    New para. \n\n"
    );
}

#[test]
fn description_wraps_at_ninety_bytes() {
    let words = vec!["abcdefghi"; 10].join(" ");
    let expected = format!("    {}\n    {}\n\n", "abcdefghi ".repeat(8), "abcdefghi ".repeat(2));
    assert_eq!(format_description(&words), expected);
}

#[test]
fn description_trims_and_collapses_spaces() {
    assert_eq!(format_description("  a\t  b  "), "    a b \n\n");
    assert_eq!(format_description(""), "    \n\n");
    assert_eq!(format_description("a\n\n\nb"), "    a \n\n    b \n\n");
}

#[test]
fn description_counts_bytes() {
    let word = "é".repeat(43);
    let expected = format!("    {} \n    {} \n\n", "a", word);
    assert_eq!(format_description(&format!("a {}", word)), expected);
}

fn grid_level() -> Level {
    Level {
        maps: vec![vec!["#..#".to_string(), "#.x#".to_string(), "####".to_string()]],
        rooms: vec![],
        entry: Coord { x: 1, y: 0, z: 0 },
        npcs: vec![],
        regions: vec![],
    }
}

#[test]
fn map_issue_points_at_cell() {
    let lv = grid_level();
    assert_eq!(
        print_map_issue(&lv, &Coord { x: 2, y: 1, z: 0 }),
        Some(vec!["#..#".to_string(), "#.x#".to_string(), "  ^".to_string()])
    );
    assert_eq!(print_map_issue(&lv, &Coord { x: 0, y: 9, z: 0 }).map(|v| v.len()), Some(3));
    assert_eq!(print_map_issue(&lv, &Coord { x: 0, y: 0, z: 1 }), None);
}
