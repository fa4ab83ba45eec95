//! Tests for the text formats: maps, scenarios, and what they are built of.

use mapf_arena::map::{GridMap, MapError, Tile};
use mapf_arena::scenario::{float_text_ok, Scenario, ScenarioError};
use mapf_arena::text::{
    chars_of, contains_text, eq_ignore_ascii_case, is_space_char, parse_unsigned, push_decimal,
    push_signed, split_fields, split_lines, starts_with, string_of, trim_bounds,
};

fn chars(s: &str) -> Vec<char> {
    s.chars().collect()
}

fn pieces(text: &str, spans: &[mapf_arena::text::Span]) -> Vec<String> {
    let all = chars(text);
    spans.iter().map(|s| all[s.lo..s.hi].iter().collect()).collect()
}

#[test]
fn numbers_are_written_in_decimal() {
    let mut out = String::from("n=");
    push_decimal(&mut out, 0);
    out.push(' ');
    push_decimal(&mut out, 9);
    out.push(' ');
    push_decimal(&mut out, 10);
    out.push(' ');
    push_decimal(&mut out, 1203);
    out.push(' ');
    push_decimal(&mut out, u64::MAX);
    assert_eq!(out, "n=0 9 10 1203 18446744073709551615");
    let mut out = String::new();
    push_signed(&mut out, -1);
    out.push(' ');
    push_signed(&mut out, i64::MIN);
    out.push(' ');
    push_signed(&mut out, i64::MAX);
    out.push(' ');
    push_signed(&mut out, 0);
    assert_eq!(out, "-1 -9223372036854775808 9223372036854775807 0");
}

#[test]
fn characters_and_strings_convert_both_ways() {
    assert_eq!(chars_of("a\u{e9}\u{1F600}z"), vec!['a', '\u{e9}', '\u{1F600}', 'z']);
    assert_eq!(string_of(&['h', '\u{e9}', '!']), "h\u{e9}!");
    assert_eq!(string_of(&[]), "");
}

#[test]
fn white_space_is_what_the_standard_library_trims() {
    for code in 0..=0x3100u32 {
        if let Some(c) = char::from_u32(code) {
            assert_eq!(is_space_char(c), c.is_whitespace(), "U+{:04X}", code);
        }
    }
    for text in ["", "  ", " a b \t", "\u{a0}x\u{3000}", "x", "\n\rx y\r\n"] {
        let all = chars(text);
        let (lo, hi) = trim_bounds(&all);
        let trimmed: String = all[lo..hi].iter().collect();
        assert_eq!(trimmed, text.trim(), "{:?}", text);
    }
}

#[test]
fn unsigned_numbers_parse_as_the_standard_library_parses_them() {
    for text in ["0", "7", "+7", "007", "4294967295", "4294967296", "", "+", "-1", "1 ", " 1", "1_0",
        "++1", "12a", "99999999999999999999999", "\u{663}"]
    {
        let expected = text.parse::<u32>().ok().map(|v| v as u64);
        assert_eq!(parse_unsigned(&chars(text), u32::MAX as u64), expected, "{:?}", text);
    }
    assert_eq!(parse_unsigned(&chars("18446744073709551615"), u64::MAX), Some(u64::MAX));
    assert_eq!(parse_unsigned(&chars("18446744073709551616"), u64::MAX), None);
    assert_eq!(parse_unsigned(&chars("65535"), 65535), Some(65535));
    assert_eq!(parse_unsigned(&chars("65536"), 65535), None);
    assert_eq!(parse_unsigned(&chars("5"), 0), None);
    assert_eq!(parse_unsigned(&chars("0"), 0), Some(0));
}

#[test]
fn lines_split_as_the_standard_library_splits_them() {
    for text in ["", "\n", "a", "a\n", "a\nb", "a\r\nb\r\n", "a\rb\n", "\n\n", "a\n\nb", "a\r",
        "\r\n", "x\n\r\ny\r"]
    {
        let expected: Vec<String> = text.lines().map(String::from).collect();
        assert_eq!(pieces(text, &split_lines(&chars(text))), expected, "{:?}", text);
    }
}

#[test]
fn fields_split_as_the_standard_library_splits_them() {
    for text in ["", "a", "a\tb", "\t", "a\t", "\ta", "a\t\tb", "\t\t"] {
        let expected: Vec<String> = text.split('\t').map(String::from).collect();
        assert_eq!(pieces(text, &split_fields(&chars(text), '\t')), expected, "{:?}", text);
    }
}

#[test]
fn texts_are_compared() {
    assert!(starts_with(&chars("height 4"), &chars("height ")));
    assert!(starts_with(&chars("x"), &chars("")));
    assert!(!starts_with(&chars("heigh"), &chars("height ")));
    assert!(!starts_with(&chars("Height 4"), &chars("height ")));
    assert!(eq_ignore_ascii_case(&chars("MaP"), &chars("map")));
    assert!(!eq_ignore_ascii_case(&chars("maps"), &chars("map")));
    assert!(!eq_ignore_ascii_case(&chars("m\u{e4}p"), &chars("m\u{c4}p")));
    assert!(eq_ignore_ascii_case(&chars("[x]"), &chars("[X]")));
    assert!(!eq_ignore_ascii_case(&chars("@"), &chars("`")));
    assert!(contains_text(&chars("epoch deadline"), &chars("deadline")));
    assert!(contains_text(&chars("abc"), &chars("")));
    assert!(contains_text(&chars("aab"), &chars("ab")));
    assert!(!contains_text(&chars("ab"), &chars("abc")));
    assert!(!contains_text(&chars(""), &chars("a")));
}

#[test]
fn float_texts_are_those_the_standard_library_parses() {
    for text in ["1", "1.", ".5", "1.5", "+1.5", "-0.25", "1e5", "1E5", "1e+5", "1.e-5", ".5e0",
        "inf", "-inf", "+Infinity", "NaN", "nan", "", ".", "+", "-", "e5", "1e", "1e+", "1.5.2",
        "1_0", " 1", "1 ", "0x10", "infinit", "1f", "--1", "1e5.0", "3.00000000", "in", "+."]
    {
        assert_eq!(float_text_ok(&chars(text)), text.parse::<f64>().is_ok(), "{:?}", text);
    }
}

#[test]
fn map_header_lines_come_in_any_order() {
    let text = "width 2\n  HEIGHT 9\nheight 1\ncomment\ntype x\n  MAP  \nG@\nrest is ignored\n";
    let map = GridMap::parse(text).unwrap();
    assert_eq!(map.width(), 2);
    assert_eq!(map.height(), 1);
    assert_eq!(map.get(0, 0), Some(Tile::Passable));
    assert_eq!(map.get(1, 0), Some(Tile::Blocked));
    assert_eq!(map.get(2, 0), None);
    assert_eq!(map.get(0, 1), None);
}

#[test]
fn map_characters_stand_for_tiles() {
    assert_eq!(GridMap::char_to_tile('.'), Tile::Passable);
    assert_eq!(GridMap::char_to_tile('G'), Tile::Passable);
    assert_eq!(GridMap::char_to_tile('S'), Tile::Passable);
    for c in ['@', 'T', 'O', 'W', ' ', 'g', 's', '\u{e9}'] {
        assert_eq!(GridMap::char_to_tile(c), Tile::Blocked);
    }
}

#[test]
fn map_errors_are_told_apart() {
    match GridMap::parse("height 1\nwidth 1\nmap\n.\n").unwrap_err() {
        MapError::MissingHeader(field) => assert_eq!(field, "type"),
        other => panic!("unexpected: {:?}", other),
    }
    match GridMap::parse("type octile\nwidth 1\nmap\n.\n").unwrap_err() {
        MapError::MissingHeader(field) => assert_eq!(field, "height"),
        other => panic!("unexpected: {:?}", other),
    }
    let missing = GridMap::parse("type octile\nheight 1\n").unwrap_err();
    assert_eq!(missing.message(), "missing header field: width");
    let invalid = GridMap::parse("height  -3 \nmap\n").unwrap_err();
    match &invalid {
        MapError::InvalidHeader { field, value } => {
            assert_eq!(*field, "height");
            assert_eq!(value, " -3");
        }
        other => panic!("unexpected: {:?}", other),
    }
    assert_eq!(invalid.message(), "invalid header value for height:  -3");
    let invalid = GridMap::parse("type a\nwidth 4294967296\nheight x\n").unwrap_err();
    assert_eq!(invalid.message(), "invalid header value for width: 4294967296");
    let short = GridMap::parse("type a\nheight 3\nwidth 2\nmap\n..\n..\n").unwrap_err();
    match &short {
        MapError::DimensionMismatch { expected, got } => {
            assert_eq!((*expected, *got), (3, 2));
        }
        other => panic!("unexpected: {:?}", other),
    }
    assert_eq!(short.message(), "dimension mismatch: expected 3 rows, got 2");
    let ragged = GridMap::parse("type a\nheight 3\nwidth 2\nmap\n..\n...\n.\n").unwrap_err();
    match &ragged {
        MapError::RowWidthMismatch { row, expected, got } => {
            assert_eq!((*row, *expected, *got), (1, 2, 3));
        }
        other => panic!("unexpected: {:?}", other),
    }
    assert_eq!(ragged.message(), "row 1 width mismatch: expected 2, got 3");
    let no_map_line = GridMap::parse("type a\nheight 1\nwidth 1\n.\n").unwrap_err();
    assert_eq!(no_map_line.message(), "dimension mismatch: expected 1 rows, got 0");
}

#[test]
fn map_of_no_rows_parses() {
    let map = GridMap::parse("type a\nheight 0\nwidth 5\nmap\n").unwrap();
    assert_eq!((map.width(), map.height()), (5, 0));
    assert!(map.to_bytes().is_empty());
    assert_eq!(map.get(0, 0), None);
}

#[test]
fn map_rows_are_counted_in_characters() {
    let map = GridMap::parse("type a\nheight 1\nwidth 3\nmap\n.\u{e9}.\r\n").unwrap();
    assert_eq!(map.to_bytes(), vec![1, 0, 1]);
}

#[test]
fn bytes_and_tiles_round_trip() {
    let bytes = vec![1, 0, 0, 1, 1, 0];
    let map = GridMap::from_bytes(3, 2, &bytes).unwrap();
    assert_eq!(map.to_bytes(), bytes);
    assert_eq!(map.width(), 3);
    assert_eq!(map.height(), 2);
    assert_eq!(map.get(0, 1), Some(Tile::Passable));
    assert_eq!(map.get(2, 0), Some(Tile::Blocked));
    assert!(map.is_passable(1, 1));
    assert!(!map.is_passable(1, 0));
    let again = GridMap::from_bytes(3, 2, &map.to_bytes()).unwrap();
    assert_eq!(again.to_bytes(), bytes);
    let copy = map.clone();
    assert_eq!(copy.to_bytes(), bytes);
    assert_eq!((copy.width(), copy.height()), (3, 2));
    // Every byte but 0 is passable, and is written back as 1.
    assert_eq!(GridMap::from_bytes(2, 1, &[2, 255]).unwrap().to_bytes(), vec![1, 1]);
}

#[test]
fn bytes_of_the_wrong_number_make_no_map() {
    assert!(GridMap::from_bytes(3, 2, &[1; 5]).is_none());
    assert!(GridMap::from_bytes(3, 2, &[1; 7]).is_none());
    assert!(GridMap::from_bytes(0, 7, &[1]).is_none());
    assert!(GridMap::from_bytes(0, 7, &[]).is_some());
    assert!(GridMap::from_bytes(u32::MAX, u32::MAX, &[1]).is_none());
}

#[test]
fn map_text_round_trips_through_parse() {
    let rows = ["@@@@@@", "@.GS.@", "@.@@.@", "@@@@@@"];
    let mut text = String::from("type octile\nheight 4\nwidth 6\nmap\n");
    for row in rows {
        text.push_str(row);
        text.push('\n');
    }
    let map = GridMap::parse(&text).unwrap();
    assert_eq!((map.width(), map.height()), (6, 4));
    let mut written = String::from("type octile\nheight 4\nwidth 6\nmap\n");
    for y in 0..4 {
        for x in 0..6 {
            let passable = matches!(rows[y as usize].as_bytes()[x as usize], b'.' | b'G' | b'S');
            assert_eq!(map.is_passable(x, y), passable);
            written.push(if map.get(x, y) == Some(Tile::Passable) { '.' } else { '@' });
        }
        written.push('\n');
    }
    let again = GridMap::parse(&written).unwrap();
    assert_eq!((again.width(), again.height()), (6, 4));
    assert_eq!(again.to_bytes(), map.to_bytes());
}

#[test]
fn scenario_version_line_is_required_first() {
    assert!(matches!(Scenario::parse(""), Err(ScenarioError::MissingVersion)));
    assert!(matches!(Scenario::parse("\n  \n"), Err(ScenarioError::MissingVersion)));
    assert!(matches!(Scenario::parse("version"), Err(ScenarioError::MissingVersion)));
    let scenario = Scenario::parse("\n \t\n  version  +12 \n").unwrap();
    assert_eq!(scenario.version(), 12);
    assert!(scenario.entries().is_empty());
    let error = Scenario::parse("version 1.0\n").unwrap_err();
    match &error {
        ScenarioError::InvalidVersion(text) => assert_eq!(text, "1.0"),
        other => panic!("unexpected: {:?}", other),
    }
    assert_eq!(error.message(), "invalid version: 1.0");
    assert_eq!(Scenario::parse("x").unwrap_err().message(), "missing version header");
}

#[test]
fn scenario_entries_have_nine_columns() {
    let error = Scenario::parse("version 1\n\n0\tm\t1\t1\t0\t0\t0\t0\n").unwrap_err();
    match &error {
        ScenarioError::MalformedEntry { line, reason } => {
            assert_eq!(*line, 3);
            assert_eq!(reason, "expected 9 columns, got 8");
        }
        other => panic!("unexpected: {:?}", other),
    }
    assert_eq!(error.message(), "malformed entry on line 3: expected 9 columns, got 8");
    let error = Scenario::parse("version 1\n0\tm\t1\t1\t0\t0\t0\t0\t1.0\textra\n").unwrap_err();
    assert_eq!(error.message(), "malformed entry on line 2: expected 9 columns, got 10");
}

#[test]
fn scenario_reports_the_first_bad_column() {
    let line = |columns: [&str; 9]| format!("version 1\n{}\n", columns.join("\t"));
    let cases = [
        (["x", "m", "y", "1", "0", "0", "0", "0", "z"], "invalid bucket: x"),
        (["0", "m", "-1", "1", "0", "0", "0", "0", "1"], "invalid width: -1"),
        (["0", "m", "1", "", "0", "0", "0", "0", "1"], "invalid height: "),
        (["0", "m", "1", "1", " 0", "0", "0", "0", "1"], "invalid start_x:  0"),
        (["0", "m", "1", "1", "0", "4294967296", "0", "0", "1"], "invalid start_y: 4294967296"),
        (["0", "m", "1", "1", "0", "0", "a", "b", "1"], "invalid goal_x: a"),
        (["0", "m", "1", "1", "0", "0", "0", "0.5", "1"], "invalid goal_y: 0.5"),
        (["0", "m", "1", "1", "0", "0", "0", "0", "one"], "invalid optimal_length: one"),
    ];
    for (columns, reason) in cases {
        match Scenario::parse(&line(columns)).unwrap_err() {
            ScenarioError::MalformedEntry { line, reason: found } => {
                assert_eq!(line, 2);
                assert_eq!(found, reason);
            }
            other => panic!("unexpected: {:?}", other),
        }
    }
}

#[test]
fn scenario_entries_are_read_in_order() {
    let text = "version 3\n 7\tmaps/a b.map\t8\t9\t1\t2\t3\t4\t5.5e0 \n\n1\t\t0\t0\t0\t0\t0\t0\tinf\n";
    let scenario = Scenario::parse(text).unwrap();
    assert_eq!(scenario.version(), 3);
    let entries = scenario.entries();
    assert_eq!(entries.len(), 2);
    assert_eq!(entries[0].bucket, 7);
    assert_eq!(entries[0].map_name, "maps/a b.map");
    assert_eq!((entries[0].map_width, entries[0].map_height), (8, 9));
    assert_eq!((entries[0].start_x, entries[0].start_y), (1, 2));
    assert_eq!((entries[0].goal_x, entries[0].goal_y), (3, 4));
    assert_eq!(entries[0].optimal_length, "5.5e0");
    assert_eq!(entries[0].optimal_length.parse::<f64>().unwrap(), 5.5);
    assert_eq!(entries[1].map_name, "");
    assert_eq!(entries[1].optimal_length.parse::<f64>().unwrap(), f64::INFINITY);
    let (starts, goals) = scenario.agents();
    assert_eq!(starts, vec![(1, 2), (0, 0)]);
    assert_eq!(goals, vec![(3, 4), (0, 0)]);
}

fn written(width: u32, height: u32, bytes: &[u8]) -> String {
    let mut text = format!("type octile\nheight {}\nwidth {}\nmap\n", height, width);
    for y in 0..height {
        for x in 0..width {
            text.push(if bytes[(y * width + x) as usize] != 0 { '.' } else { '@' });
        }
        text.push('\n');
    }
    text
}

#[test]
fn a_map_written_out_parses_back_to_itself() {
    let cases: [(u32, u32, Vec<u8>); 6] = [
        (3, 2, vec![1, 0, 1, 0, 0, 1]),
        (1, 1, vec![0]),
        (1, 4, vec![1, 1, 0, 1]),
        (12, 1, vec![1; 12]),
        (0, 3, vec![]),
        (5, 0, vec![]),
    ];
    for (width, height, bytes) in cases {
        let map = GridMap::parse(&written(width, height, &bytes)).unwrap();
        assert_eq!((map.width(), map.height()), (width, height));
        assert_eq!(map.to_bytes(), bytes);
        for y in 0..height {
            for x in 0..width {
                let tile = if bytes[(y * width + x) as usize] != 0 { Tile::Passable } else { Tile::Blocked };
                assert_eq!(map.get(x, y), Some(tile));
            }
        }
    }
}
